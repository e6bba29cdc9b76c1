//! Properties that tie several operations of a repository together.

use vstd::prelude::*;

use crate::branch::{branch_file, restore_and_point, spec_branch_commit};
use crate::digest::lemma_hex_lower;
use crate::history::{
    clear_walk, collect_ancestors, first_parent, history_stored, is_ancestor, lemma_search_clear, parent_walk, lemma_ancestor_refl, lemma_chain_shape, lemma_chain_fits,
    lemma_chain_from, lemma_closed_holds_ancestors, lemma_collect_closed, lemma_collect_ok, lemma_collect_sound,
    lemma_search_exhausts, lemma_search_ok, lemma_search_sound, search_ancestor, spec_find_common_ancestor, spec_log,
    stored_chain,
};
use crate::merge::merged_snapshot;
use crate::mergeop::{
    conflicted_merge, merge_message, merge_plan, merge_result, merge_snapshots, restore_and_move, three_way_result, MergeOutcomeView,
};
use crate::object::{object_hash, CommitView, ObjectView};
use crate::path::{lemma_split_slash_len, safe_path, split_slash, through_symlink};
use crate::pathmap::{lemma_listing_exists, listing, map_of};
use crate::repo::{
    law_read_object_is_addressed, spec_branch_ref, spec_head_commit, spec_merge_conflicts, spec_merge_head, spec_read_object,
    ErrorView, StoreView,
};
use crate::staging::{
    add_outcome, keys_in_order, untracked_paths, commit_of, commit_outcome, commit_plan, lemma_without_same_len, other_than, spec_committed_entries, staged_paths,
    tree_of, walked_file, with_commit, without,
};
use crate::text::{valid_branch_name, lemma_branch_name_ends, lemma_hex_chars_valid, lemma_trim_hex, lemma_trim_line, strip_prefix, trim};
use crate::worktree::{lemma_entries_map_sorted, spec_blob, spec_entries_for_commit, spec_tree_for_commit};

verus! {

/// The commit that committing the index of `s` with `message` at
/// `timestamp_secs` makes.
pub open spec fn planned_commit(s: StoreView, message: Seq<char>, timestamp_secs: u64) -> ObjectView {
    let p = commit_plan(s)->Ok_0;
    commit_of(p.1, p.2, message, timestamp_secs)
}

/// The names of that commit and of its tree are well formed (as `commit`
/// ensures) and differ (as SHA-256 makes them, short of a collision).
pub open spec fn commit_names_distinct(s: StoreView, message: Seq<char>, timestamp_secs: u64) -> bool {
    let t = object_hash(tree_of(s.index->Ok_0));
    let c = object_hash(planned_commit(s, message, timestamp_secs));
    crate::text::valid_object_hash(t) && crate::text::valid_object_hash(c) && t != c
}

/// A well-formed object name trims to itself after a line feed.
proof fn lemma_name_facts(o: ObjectView)
    requires
        crate::text::valid_object_hash(object_hash(o)),
    ensures
        crate::text::valid_object_hash(object_hash(o)),
        crate::text::trim(object_hash(o) + seq!['\n']) == object_hash(o),
{
    crate::repo::lemma_name_line(o);
}

/// Writing a commit object stores its tree and the commit so that both read
/// back: the commit under its name, the tree (listing the entries in path
/// order) under the name the commit records, and no other object is added
/// or changed. The names are well formed (as `write_commit_object` ensures)
/// and differ (as SHA-256 makes them, short of a collision).
pub proof fn law_commit_object_reads_back(
    s: StoreView,
    entries: Map<Seq<char>, Seq<char>>,
    parents: Seq<Seq<char>>,
    message: Seq<char>,
    timestamp_secs: u64,
)
    requires
        crate::text::valid_object_hash(object_hash(tree_of(entries))),
        crate::text::valid_object_hash(object_hash(commit_of(entries, parents, message, timestamp_secs))),
        object_hash(tree_of(entries)) != object_hash(commit_of(entries, parents, message, timestamp_secs)),
    ensures
        ({
            let c = commit_of(entries, parents, message, timestamp_secs);
            let t = object_hash(tree_of(entries));
            let s2 = with_commit(s, entries, c);
            &&& spec_read_object(s2.objects, object_hash(c)) == Ok::<ObjectView, ErrorView>(c)
            &&& c->Commit_0.tree == t
            &&& spec_read_object(s2.objects, t) == Ok::<ObjectView, ErrorView>(tree_of(entries))
            &&& forall|k: Seq<char>| k != t && k != object_hash(c) ==> #[trigger] s2.objects.contains_key(k)
                == s.objects.contains_key(k) && (s.objects.contains_key(k) ==> s2.objects[k] == s.objects[k])
        }),
{
    let c = commit_of(entries, parents, message, timestamp_secs);
    let s2 = with_commit(s, entries, c);
    crate::repo::lemma_read_stored(s2.objects, c);
    crate::repo::lemma_read_stored(s2.objects, tree_of(entries));
}

/// Committing records the index. Afterwards `HEAD` stands at the new
/// commit, which reads back with the index's tree and its parents, the
/// snapshot of that commit is the index, and so no path is staged.
pub proof fn law_commit_records_index(s: StoreView, message: Seq<char>, timestamp_secs: u64)
    requires
        commit_outcome(s, message, timestamp_secs).0 is Ok,
        s.index matches Ok(idx) && idx.dom().finite(),
        commit_names_distinct(s, message, timestamp_secs),
    ensures
        ({
            let (r, s2) = commit_outcome(s, message, timestamp_secs);
            let h = r->Ok_0;
            &&& spec_head_commit(s2) == Ok::<Option<Seq<char>>, crate::repo::ErrorView>(Some(h))
            &&& spec_read_object(s2.objects, h) == Ok::<ObjectView, crate::repo::ErrorView>(
                planned_commit(s, message, timestamp_secs),
            )
            &&& s2.index == s.index
            &&& spec_committed_entries(s2) == s.index
            &&& staged_paths(s.index->Ok_0, spec_committed_entries(s2)->Ok_0).len() == 0
        }),
{
    let p = commit_plan(s)->Ok_0;
    let b = p.0;
    let idx = p.1;
    let c = planned_commit(s, message, timestamp_secs);
    let h = object_hash(c);
    let t = tree_of(idx);
    let th = object_hash(t);
    let s2 = commit_outcome(s, message, timestamp_secs).1;
    assert(spec_branch_ref(s) == Ok::<Seq<char>, crate::repo::ErrorView>(b));
    lemma_name_facts(c);
    lemma_name_facts(t);
    reveal_strlit("\n");
    assert("\n"@ =~= seq!['\n']);
    assert(s2.refs[b] == h + seq!['\n']);
    assert(spec_head_commit(s2) == Ok::<Option<Seq<char>>, crate::repo::ErrorView>(Some(h)));
    assert(s2.objects[h] == crate::staging::stored_view(c));
    crate::repo::lemma_read_stored(s2.objects, c);
    assert(s2.objects[th] == crate::staging::stored_view(t));
    crate::repo::lemma_read_stored(s2.objects, t);
    assert(spec_tree_for_commit(s2, h) == Ok::<Seq<(Seq<char>, Seq<char>)>, crate::repo::ErrorView>(listing(idx)));
    lemma_listing_exists(idx);
    lemma_entries_map_sorted(listing(idx));
    assert(spec_entries_for_commit(s2, h) == Ok::<Map<Seq<char>, Seq<char>>, crate::repo::ErrorView>(idx));
    assert(spec_committed_entries(s2) == s.index);
    assert(staged_paths(idx, idx) =~= Seq::<Seq<char>>::empty()) by {
        let keys = crate::staging::keys_in_order(idx);
        let f = |q: Seq<char>| crate::merge::lookup(idx, q) != Some(idx[q]);
        assert forall|i: int| 0 <= i < keys.len() implies !f(#[trigger] keys[i]) by {
            assert(keys[i] == listing(idx)[i].0);
            assert(crate::pathmap::map_of(listing(idx)).contains_key(listing(idx)[i].0));
        }
        assert(keys.all(|x: Seq<char>| !f(x)));
        keys.lemma_all_neg_filter_empty(f);
    }
}

/// Checking out a commit detaches `HEAD` at it: afterwards `HEAD` names no
/// branch and stands at the commit, no branch has moved, and the index is
/// the commit's snapshot, so no path is staged.
pub proof fn law_checkout_detaches_head(s: StoreView, h: Seq<char>, s2: StoreView)
    requires
        restore_and_point(s, h, h + "\n"@, Ok(()), s2),
    ensures
        spec_branch_ref(s2) == Err::<Seq<char>, ErrorView>(ErrorView::DetachedHead),
        spec_head_commit(s2) == Ok::<Option<Seq<char>>, ErrorView>(Some(h)),
        s2.refs == s.refs,
        s2.index == spec_entries_for_commit(s, h),
        spec_committed_entries(s2) == s2.index,
{
    law_read_object_is_addressed(s.objects, h);
    lemma_hex_lower(crate::digest::sha256_digest(s.objects[h].bytes));
    assert(h.len() > 0) by {
        if h.len() == 0 {
            assert(vstd::utf8::encode_utf8(h) =~= Seq::<u8>::empty());
        }
    }
    lemma_trim_hex(h);
    reveal_strlit("\n");
    reveal_strlit("ref: ");
    assert("\n"@ =~= seq!['\n']);
    assert(crate::digest::is_hex_char(h[0]));
    assert(strip_prefix(h, "ref: "@) is None) by {
        if 5 <= h.len() {
            assert(h.take(5)[0] != "ref: "@[0]);
        }
    }
    assert(spec_entries_for_commit(s2, h) == spec_entries_for_commit(s, h));
}
/// Switching to a branch points `HEAD` at it: afterwards `HEAD` names the
/// branch and stands at its commit, no branch has moved, and the index is
/// that commit's snapshot, so no path is staged.
pub proof fn law_switch_points_head_at_branch(s: StoreView, name: Seq<char>, s2: StoreView)
    requires
        spec_branch_commit(s, name) is Ok,
        restore_and_point(s, spec_branch_commit(s, name)->Ok_0, "ref: "@ + branch_file(name) + "\n"@, Ok(()), s2),
    ensures
        spec_branch_ref(s2) == Ok::<Seq<char>, ErrorView>(branch_file(name)),
        spec_head_commit(s2) == Ok::<Option<Seq<char>>, ErrorView>(Some(spec_branch_commit(s, name)->Ok_0)),
        s2.refs == s.refs,
        s2.index == spec_entries_for_commit(s, spec_branch_commit(s, name)->Ok_0),
        spec_committed_entries(s2) == s2.index,
{
    let c = spec_branch_commit(s, name)->Ok_0;
    let line = "ref: "@ + branch_file(name);
    lemma_branch_name_ends(name);
    reveal_strlit("\n");
    reveal_strlit("ref: ");
    reveal_strlit("refs/heads/");
    assert("\n"@ =~= seq!['\n']);
    assert(line.last() == name.last());
    assert(line[0] == 'r');
    lemma_trim_line(line);
    assert(line.take(5) =~= "ref: "@);
    assert(line.skip(5) =~= branch_file(name));
    assert(c == trim(s.refs[branch_file(name)]));
    assert(s2.refs[branch_file(name)] == s.refs[branch_file(name)]);
    assert(spec_entries_for_commit(s2, c) == spec_entries_for_commit(s, c));
}
/// The commit that the common-ancestor search finds is an ancestor of both
/// commits (each commit counting as its own ancestor).
pub proof fn law_common_ancestor_is_shared(s: StoreView, left: Seq<char>, right: Seq<char>)
    requires
        s.objects.dom().finite(),
    ensures
        spec_find_common_ancestor(s, left, right) matches Ok(Some(a)) ==> is_ancestor(s, a, left) && is_ancestor(s, a, right),
{
    lemma_ancestor_refl(s, left);
    lemma_ancestor_refl(s, right);
    assert forall|x: Seq<char>| #[trigger] seq![left].contains(x) implies is_ancestor(s, x, left) by {
        assert(seq![left][0] == left);
    }
    assert forall|x: Seq<char>| #[trigger] seq![right].contains(x) implies is_ancestor(s, x, right) by {
        assert(seq![right][0] == right);
    }
    lemma_collect_sound(s, left, seq![left], Set::empty());
    if let Ok(anc) = collect_ancestors(s, seq![left], Set::empty()) {
        lemma_search_sound(s, anc, right, seq![right], Set::empty());
    }
}

/// When `right` is an ancestor of `left`, the search finds `right` itself
/// (or fails on an unreadable commit).
pub proof fn law_ancestor_is_found_first(s: StoreView, left: Seq<char>, right: Seq<char>)
    requires
        s.objects.dom().finite(),
        is_ancestor(s, right, left),
    ensures
        spec_find_common_ancestor(s, left, right) matches Ok(x) ==> x == Some(right),
{
    lemma_collect_closed(s, seq![left], Set::empty());
    if let Ok(anc) = collect_ancestors(s, seq![left], Set::empty()) {
        assert(seq![left][0] == left);
        assert(seq![left].contains(left));
        lemma_closed_holds_ancestors(s, anc, left, right);
        let st = seq![right];
        assert(st.last() == right);
        assert(search_ancestor(s, anc, st, Set::empty()) == Ok::<Option<Seq<char>>, ErrorView>(Some(right)));
    }
}

/// When the search finds no common ancestor, there is none.
pub proof fn law_no_common_ancestor(s: StoreView, left: Seq<char>, right: Seq<char>, a: Seq<char>)
    requires
        s.objects.dom().finite(),
        spec_find_common_ancestor(s, left, right) == Ok::<Option<Seq<char>>, ErrorView>(None),
    ensures
        !(is_ancestor(s, a, left) && is_ancestor(s, a, right)),
{
    lemma_collect_closed(s, seq![left], Set::empty());
    let anc = collect_ancestors(s, seq![left], Set::empty())->Ok_0;
    let seen = lemma_search_exhausts(s, anc, seq![right], Set::empty());
    assert(seq![left][0] == left);
    assert(seq![left].contains(left));
    assert(seq![right][0] == right);
    assert(seq![right].contains(right));
    if is_ancestor(s, a, left) && is_ancestor(s, a, right) {
        lemma_closed_holds_ancestors(s, anc, left, a);
        lemma_closed_holds_ancestors(s, seen, right, a);
    }
}
/// Merging a branch whose commit is an ancestor of the current commit
/// changes nothing: when it succeeds it reports the branch as already
/// merged.
pub proof fn law_merge_of_ancestor_is_up_to_date(
    s: StoreView,
    branch: Seq<char>,
    timestamp_secs: u64,
    r: Result<MergeOutcomeView, ErrorView>,
    after: StoreView,
)
    requires
        s.objects.dom().finite(),
        merge_result(s, branch, timestamp_secs, r, after),
        spec_head_commit(s) matches Ok(Some(cur)) && spec_branch_commit(s, branch) matches Ok(tgt) && is_ancestor(s, tgt, cur),
    ensures
        r is Ok ==> r == Ok::<MergeOutcomeView, ErrorView>(MergeOutcomeView::AlreadyUpToDate) && after == s,
{
    let cur = spec_head_commit(s)->Ok_0->Some_0;
    let tgt = spec_branch_commit(s, branch)->Ok_0;
    law_ancestor_is_found_first(s, cur, tgt);
}

/// While conflicts remain, committing is refused and changes nothing.
pub proof fn law_commit_refused_while_conflicted(s: StoreView, message: Seq<char>, timestamp_secs: u64)
    requires
        spec_branch_ref(s) is Ok,
        spec_merge_conflicts(s) matches Ok(c) && c.len() > 0,
    ensures
        commit_outcome(s, message, timestamp_secs) == (Err::<Seq<char>, ErrorView>(ErrorView::UnresolvedConflicts), s),
{
}

/// Committing while a merge is in progress completes it: the commit has the
/// current commit and the merged commit as parents, in that order, and the
/// merge state is cleared.
pub proof fn law_commit_completes_merge(s: StoreView, message: Seq<char>, timestamp_secs: u64)
    requires
        commit_outcome(s, message, timestamp_secs).0 is Ok,
        spec_merge_head(s) matches Ok(Some(m)),
        spec_head_commit(s) matches Ok(Some(cur)),
    ensures
        planned_commit(s, message, timestamp_secs) matches ObjectView::Commit(c)
            && c.parents == seq![spec_head_commit(s)->Ok_0->Some_0, spec_merge_head(s)->Ok_0->Some_0],
        commit_outcome(s, message, timestamp_secs).1.merge_head == Ok::<Option<Seq<char>>, ErrorView>(None),
        commit_outcome(s, message, timestamp_secs).1.merge_conflicts == Ok::<Option<Seq<Seq<char>>>, ErrorView>(None),
{
    let p = commit_plan(s)->Ok_0;
    assert(p.2 =~= seq![spec_head_commit(s)->Ok_0->Some_0, spec_merge_head(s)->Ok_0->Some_0]);
}
/// A three-way merge without conflicts makes a merge commit and moves the
/// current branch to it: afterwards `HEAD` stands at the merge commit, which
/// reads back with the current commit and the branch's commit as its
/// parents, in that order, and the index is its snapshot.
pub proof fn law_merge_commit_has_both_parents(
    s: StoreView,
    branch: Seq<char>,
    timestamp_secs: u64,
    r: Result<MergeOutcomeView, ErrorView>,
    after: StoreView,
)
    requires
        merge_result(s, branch, timestamp_secs, r, after),
        r matches Ok(MergeOutcomeView::Merged(h)) && crate::text::valid_object_hash(h),
    ensures
        ({
            let h = r->Ok_0->Merged_0;
            &&& spec_head_commit(after) == Ok::<Option<Seq<char>>, ErrorView>(Some(h))
            &&& spec_read_object(after.objects, h) matches Ok(ObjectView::Commit(c)) && c.parents == seq![
                spec_head_commit(s)->Ok_0->Some_0,
                spec_branch_commit(s, branch)->Ok_0,
            ]
            &&& spec_committed_entries(after) == after.index
        }),
{
    reveal(restore_and_move);
    reveal(three_way_result);
    reveal(conflicted_merge);
    let h = r->Ok_0->Merged_0;
    let (b, cur, tgt, anc) = merge_plan(s, branch)->Ok_0;
    let (a, c, t) = merge_snapshots(s, anc, cur, tgt)->Ok_0;
    let merged = merged_snapshot(a, c, t);
    let commit = commit_of(merged, seq![cur, tgt], merge_message(branch), timestamp_secs);
    assert(object_hash(commit) == h);
    let s1 = with_commit(s, merged, commit);
    lemma_name_facts(commit);
    crate::repo::lemma_read_stored(s1.objects, commit);
    assert(after.objects == s1.objects);
    assert(spec_read_object(after.objects, h) == Ok::<ObjectView, ErrorView>(commit));
    reveal_strlit("\n");
    assert("\n"@ =~= seq!['\n']);
    assert(spec_branch_ref(s) == Ok::<Seq<char>, ErrorView>(b));
    assert(after.refs[b] == h + seq!['\n']);
    assert(after.head == s.head);
    assert(spec_entries_for_commit(after, h) == spec_entries_for_commit(s1, h));
}
/// Staging a file stores its contents as a blob and records the blob in the
/// index: afterwards the index maps the path to the blob, the blob reads
/// back as the contents of the file the path names, the working tree is
/// unchanged, and the path is no longer in conflict.
pub proof fn law_add_stages_file(s: StoreView, path: Seq<char>)
    requires
        add_outcome(s, path).0 matches Ok(h) && crate::text::valid_object_hash(h),
    ensures
        ({
            let (r, s2) = add_outcome(s, path);
            let h = r->Ok_0;
            &&& s2.index == Ok::<Map<Seq<char>, Seq<char>>, ErrorView>(s.index->Ok_0.insert(path, h))
            &&& spec_blob(s2, h) == Ok::<Seq<u8>, ErrorView>(walked_file(s.files, path)->Some_0)
            &&& s2.files == s.files
            &&& spec_merge_conflicts(s2) matches Ok(c) && !c.contains(path)
        }),
{
    let s2 = add_outcome(s, path).1;
    let blob = ObjectView::Blob(walked_file(s.files, path)->Some_0);
    lemma_name_facts(blob);
    crate::repo::lemma_read_stored(s2.objects, blob);
    let c = spec_merge_conflicts(s)->Ok_0;
    let w = without(c, path);
    if w.len() != c.len() {
        assert forall|i: int| 0 <= i < w.len() implies w[i] != path by {
            c.lemma_filter_pred(other_than(path), i);
        }
    } else {
        lemma_without_same_len(c, path);
    }
}
/// The log follows first parents from newest to oldest: it starts at the
/// commit `HEAD` stands at (and is empty before the first commit), each
/// commit is followed by its first parent, the oldest has no parent, and
/// each listed commit is the stored commit of its name.
pub proof fn law_log_follows_first_parents(s: StoreView)
    requires
        spec_log(s) is Ok,
    ensures
        ({
            let l = spec_log(s)->Ok_0;
            &&& spec_head_commit(s) == Ok::<Option<Seq<char>>, ErrorView>(if l.len() == 0 { None } else { Some(l[0].0) })
            &&& forall|i: int| 0 <= i < l.len() - 1 ==> (#[trigger] l[i]).1.parents.len() > 0 && l[i].1.parents[0] == l[i + 1].0
            &&& l.len() > 0 ==> l.last().1.parents.len() == 0
            &&& forall|i: int| 0 <= i < l.len() ==> spec_read_object(s.objects, (#[trigger] l[i]).0)
                == Ok::<ObjectView, ErrorView>(ObjectView::Commit(l[i].1))
        }),
{
    let h = spec_head_commit(s)->Ok_0;
    lemma_chain_shape(s, h, s.objects.len());
    let l = spec_log(s)->Ok_0;
    assert forall|i: int| 0 <= i < l.len() - 1 implies (#[trigger] l[i]).1.parents.len() > 0 && l[i].1.parents[0] == l[i + 1].0 by {
        assert(first_parent(l[i].1.parents) == Some(l[i + 1].0));
    }
}

/// The log lists the whole first-parent history when it is stored: if
/// `HEAD` stands at the first commit of `l` (or at none when `l` is empty),
/// each commit of `l` is stored intact under its name, each is followed by
/// its first parent, and the last has no parent, then the log is `l`.
pub proof fn law_log_succeeds(s: StoreView, l: Seq<(Seq<char>, CommitView)>)
    requires
        s.objects.dom().finite(),
        spec_head_commit(s) == Ok::<Option<Seq<char>>, ErrorView>(if l.len() == 0 { None } else { Some(l[0].0) }),
        forall|i: int| 0 <= i < l.len() ==> spec_read_object(s.objects, (#[trigger] l[i]).0)
            == Ok::<ObjectView, ErrorView>(ObjectView::Commit(l[i].1)),
        forall|i: int| 0 <= i < l.len() - 1 ==> (#[trigger] l[i]).1.parents.len() > 0 && l[i].1.parents[0] == l[i + 1].0,
        l.len() > 0 ==> l.last().1.parents.len() == 0,
    ensures
        spec_log(s) == Ok::<Seq<(Seq<char>, CommitView)>, ErrorView>(l),
{
    assert forall|i: int| 0 <= i < l.len() - 1 implies first_parent((#[trigger] l[i]).1.parents) == Some(l[i + 1].0) by {
        assert(l[i].1.parents.len() > 0 && l[i].1.parents[0] == l[i + 1].0);
    }
    assert(stored_chain(s, l));
    lemma_chain_fits(s, l);
    lemma_chain_from(s, l, 0, s.objects.len());
    assert(l.subrange(0, l.len() as int) =~= l);
}

/// The common-ancestor search ends without error when the whole history of
/// both commits is stored: every ancestor of each reads as a commit.
pub proof fn law_common_ancestor_search_succeeds(s: StoreView, left: Seq<char>, right: Seq<char>)
    requires
        s.objects.dom().finite(),
        history_stored(s, left),
        history_stored(s, right),
    ensures
        spec_find_common_ancestor(s, left, right) is Ok,
{
    lemma_ancestor_refl(s, left);
    lemma_ancestor_refl(s, right);
    assert forall|x: Seq<char>| #[trigger] seq![left].contains(x) implies is_ancestor(s, x, left) by {
        assert(seq![left][0] == left);
    }
    assert forall|x: Seq<char>| #[trigger] seq![right].contains(x) implies is_ancestor(s, x, right) by {
        assert(seq![right][0] == right);
    }
    lemma_collect_ok(s, left, seq![left], Set::empty());
    let anc = collect_ancestors(s, seq![left], Set::empty())->Ok_0;
    lemma_search_ok(s, anc, right, seq![right], Set::empty());
}

/// The search finds the nearest common ancestor along the way it walks:
/// some walk along parent links leads from `right` to the commit found
/// without passing any other ancestor of `left`. So when `left` is itself
/// reached from `right` before any older shared commit, it is `left` that
/// is found, not one of its ancestors.
pub proof fn law_common_ancestor_is_nearest(s: StoreView, left: Seq<char>, right: Seq<char>)
    requires
        s.objects.dom().finite(),
    ensures
        spec_find_common_ancestor(s, left, right) matches Ok(Some(a)) ==> exists|p: Seq<Seq<char>>|
            #[trigger] parent_walk(s, p) && p[0] == right && p.last() == a
                && forall|i: int| 0 <= i < p.len() - 1 ==> !is_ancestor(s, #[trigger] p[i], left),
{
    lemma_collect_closed(s, seq![left], Set::empty());
    if let Ok(anc) = collect_ancestors(s, seq![left], Set::empty()) {
        assert(seq![left][0] == left);
        assert(seq![left].contains(left));
        assert forall|x: Seq<char>| #[trigger] seq![right].contains(x) implies clear_walk(s, anc, right, x) by {
            assert(seq![right][0] == right);
            let p = seq![right];
            assert(parent_walk(s, p) && p[0] == right && p.last() == right);
        }
        lemma_search_clear(s, anc, right, seq![right], Set::empty());
        if let Ok(Some(a)) = search_ancestor(s, anc, seq![right], Set::empty()) {
            let p = choose|p: Seq<Seq<char>>|
                #[trigger] parent_walk(s, p) && p[0] == right && p.last() == a
                    && forall|i: int| 0 <= i < p.len() - 1 ==> !anc.contains(#[trigger] p[i]);
            assert forall|i: int| 0 <= i < p.len() - 1 implies !is_ancestor(s, #[trigger] p[i], left) by {
                if is_ancestor(s, p[i], left) {
                    lemma_closed_holds_ancestors(s, anc, left, p[i]);
                }
            }
        }
    }
}

/// The keys of a finite map, listed in path order, are exactly its keys.
proof fn lemma_keys_in_order_contains<V>(m: Map<Seq<char>, V>, p: Seq<char>)
    requires
        m.dom().finite(),
    ensures
        keys_in_order(m).contains(p) <==> m.contains_key(p),
{
    lemma_listing_exists(m);
    let l = listing(m);
    let ks = keys_in_order(m);
    if m.contains_key(p) {
        let i = choose|i: int| 0 <= i < l.len() && #[trigger] l[i].0 == p;
        assert(ks[i] == p);
    }
    if ks.contains(p) {
        let i = choose|i: int| 0 <= i < ks.len() && ks[i] == p;
        assert(l[i].0 == p);
        assert(map_of(l).contains_key(p));
    }
}

/// A path is staged exactly when the index tracks it with a blob other than
/// the one the last commit records at that path, or the commit lacks it.
pub proof fn law_staged_paths_differ_from_commit(
    idx: Map<Seq<char>, Seq<char>>,
    committed: Map<Seq<char>, Seq<char>>,
    p: Seq<char>,
)
    requires
        idx.dom().finite(),
    ensures
        staged_paths(idx, committed).contains(p) <==> idx.contains_key(p) && !(committed.contains_key(p) && committed[p] == idx[p]),
{
    let ks = keys_in_order(idx);
    let f = |q: Seq<char>| crate::merge::lookup(committed, q) != Some(idx[q]);
    assert(staged_paths(idx, committed) == ks.filter(f));
    lemma_keys_in_order_contains(idx, p);
    if ks.filter(f).contains(p) {
        ks.lemma_filter_contains_rev(f, p);
    }
    if idx.contains_key(p) && f(p) {
        let i = choose|i: int| 0 <= i < ks.len() && ks[i] == p;
        ks.lemma_filter_contains(f, i);
    }
}

/// A path is untracked exactly when the working tree has a regular file
/// there that the index does not track.
pub proof fn law_untracked_paths_are_unstaged_files(
    idx: Map<Seq<char>, Seq<char>>,
    files: Map<Seq<char>, Seq<u8>>,
    p: Seq<char>,
)
    requires
        files.dom().finite(),
    ensures
        untracked_paths(idx, files).contains(p) <==> files.contains_key(p) && !idx.contains_key(p),
{
    let ks = keys_in_order(files);
    let f = |q: Seq<char>| !idx.contains_key(q);
    assert(untracked_paths(idx, files) == ks.filter(f));
    lemma_keys_in_order_contains(files, p);
    if ks.filter(f).contains(p) {
        ks.lemma_filter_contains_rev(f, p);
    }
    if files.contains_key(p) && f(p) {
        let i = choose|i: int| 0 <= i < ks.len() && ks[i] == p;
        ks.lemma_filter_contains(f, i);
    }
}

/// A piece of a path that names a file or directory: not empty, not `.`
/// and not `..`.
pub open spec fn plain_name(p: Seq<char>) -> bool {
    p.len() > 0 && p != seq!['.'] && p != seq!['.', '.']
}

/// A relative path made only of plain names, the first of which is not
/// `.minigit`, is safe; names starting with a dot, such as `.gitignore`,
/// included.
pub proof fn law_plain_relative_path_is_safe(s: Seq<char>)
    requires
        s.len() > 0,
        s[0] != '/',
        forall|i: int| 0 <= i < split_slash(s).len() ==> plain_name(#[trigger] split_slash(s)[i]),
        split_slash(s)[0] != seq!['.', 'm', 'i', 'n', 'i', 'g', 'i', 't'],
    ensures
        safe_path(s),
{
    lemma_split_slash_len(s);
    assert(plain_name(split_slash(s)[0]));
    assert forall|i: int| 0 <= i < split_slash(s).len() implies #[trigger] split_slash(s)[i] != seq!['.', '.'] by {
        assert(plain_name(split_slash(s)[i]));
    }
}

/// Staging a regular file of the working tree at a relative path of plain
/// names (the first not `.minigit`) that leads through no symbolic link
/// succeeds whenever the index and the conflict list can be read.
pub proof fn law_add_of_plain_path_succeeds(s: StoreView, path: Seq<char>)
    requires
        path.len() > 0,
        path[0] != '/',
        forall|i: int| 0 <= i < split_slash(path).len() ==> plain_name(#[trigger] split_slash(path)[i]),
        split_slash(path)[0] != seq!['.', 'm', 'i', 'n', 'i', 'g', 'i', 't'],
        !through_symlink(s.symlinks, path),
        walked_file(s.files, path) is Some,
        s.index is Ok,
        spec_merge_conflicts(s) is Ok,
    ensures
        add_outcome(s, path).0 is Ok,
{
    law_plain_relative_path_is_safe(path);
}

/// A character allowed in branch names: an ASCII letter of either case, a
/// digit, `-` or `_`.
pub open spec fn branch_char(c: char) -> bool {
    ('a' <= c <= 'z') || ('A' <= c <= 'Z') || ('0' <= c <= '9') || c == '-' || c == '_'
}

/// A character whose code is an allowed branch-name byte is an allowed
/// branch-name character.
proof fn lemma_branch_byte_char(c: char, b: u8)
    requires
        c as u32 == b as u32,
        crate::text::is_branch_byte(b),
    ensures
        branch_char(c),
{
}

/// A branch name is valid exactly when it is not empty and each of its
/// characters is an ASCII letter of either case, a digit, `-` or `_`.
pub proof fn law_branch_name_characters(name: Seq<char>)
    ensures
        valid_branch_name(name) <==> name.len() > 0 && forall|i: int| 0 <= i < name.len() ==> branch_char(#[trigger] name[i]),
{
    let b = vstd::utf8::encode_utf8(name);
    if name.len() > 0 && forall|i: int| 0 <= i < name.len() ==> branch_char(#[trigger] name[i]) {
        assert(vstd::utf8::is_ascii_chars(name)) by {
            assert forall|i: int| 0 <= i < name.len() implies '\0' <= #[trigger] name[i] <= '\u{7f}' by {
                assert(branch_char(name[i]));
            }
        }
        vstd::utf8::is_ascii_chars_encode_utf8(name);
        assert forall|i: int| 0 <= i < b.len() implies crate::text::is_branch_byte(#[trigger] b[i]) by {
            assert(branch_char(name[i]));
            assert(name[i] as u8 == b[i]);
        }
    }
    if valid_branch_name(name) {
        assert forall|i: int| 0 <= i < b.len() implies #[trigger] b[i] < 128 by {
            assert(crate::text::is_branch_byte(b[i]));
        }
        crate::text::lemma_ascii_encoding(name);
        assert forall|i: int| 0 <= i < name.len() implies branch_char(#[trigger] name[i]) by {
            assert(name[i] as u32 == b[i] as u32);
            assert(crate::text::is_branch_byte(b[i]));
            lemma_branch_byte_char(name[i], b[i]);
        }
    }
}

/// Committing needs `HEAD` to name a branch: with `HEAD` detached (or
/// unreadable) it is refused and changes nothing.
pub proof fn law_commit_needs_branch(s: StoreView, message: Seq<char>, timestamp_secs: u64)
    requires
        spec_branch_ref(s) is Err,
    ensures
        commit_outcome(s, message, timestamp_secs) == (Err::<Seq<char>, ErrorView>(spec_branch_ref(s)->Err_0), s),
{
}
/// A merge reports what the history shows: "already up to date" only when
/// the branch's commit is an ancestor of the current one, and a
/// fast-forward only to the branch's commit when the current commit is an
/// ancestor of it. After a fast-forward, `HEAD` stands at the branch's
/// commit and the index is its snapshot.
pub proof fn law_merge_outcome_follows_history(
    s: StoreView,
    branch: Seq<char>,
    timestamp_secs: u64,
    r: Result<MergeOutcomeView, ErrorView>,
    after: StoreView,
)
    requires
        s.objects.dom().finite(),
        merge_result(s, branch, timestamp_secs, r, after),
        r is Ok,
    ensures
        ({
            let cur = spec_head_commit(s)->Ok_0->Some_0;
            let tgt = spec_branch_commit(s, branch)->Ok_0;
            &&& r == Ok::<MergeOutcomeView, ErrorView>(MergeOutcomeView::AlreadyUpToDate) ==> is_ancestor(s, tgt, cur)
            &&& r matches Ok(MergeOutcomeView::FastForward(h)) ==> {
                &&& h == tgt
                &&& is_ancestor(s, cur, tgt)
                &&& spec_head_commit(after) == Ok::<Option<Seq<char>>, ErrorView>(Some(tgt))
                &&& spec_committed_entries(after) == after.index
            }
        }),
{
    reveal(restore_and_move);
    reveal(three_way_result);
    reveal(conflicted_merge);
    let (b, cur, tgt, anc) = merge_plan(s, branch)->Ok_0;
    law_common_ancestor_is_shared(s, cur, tgt);
    if r matches Ok(MergeOutcomeView::FastForward(h)) {
        assert(anc == cur);
        assert(spec_branch_ref(s) == Ok::<Seq<char>, ErrorView>(b));
        let c = spec_read_object(s.objects, tgt)->Ok_0;
        law_read_object_is_addressed(s.objects, tgt);
        lemma_hex_lower(crate::digest::sha256_digest(s.objects[tgt].bytes));
        assert(tgt.len() > 0) by {
            if tgt.len() == 0 {
                assert(vstd::utf8::encode_utf8(tgt) =~= Seq::<u8>::empty());
            }
        }
        lemma_trim_hex(tgt);
        reveal_strlit("\n");
        assert("\n"@ =~= seq!['\n']);
        assert(after.refs[b] == tgt + seq!['\n']);
        assert(after.head == s.head);
        assert(spec_entries_for_commit(after, tgt) == spec_entries_for_commit(s, tgt));
    }
}
} // verus!
