//! Three-way merging at whole-file granularity.

use vstd::prelude::*;
use vstd::utf8::encode_utf8;

use crate::digest::ObjectHash;
use crate::pathmap::{key_lt, lemma_key_lt_facts, PathMap};
use crate::repo::Repository;

verus! {

/// How one path merges: to a blob (or to no file), or to a conflict.
#[derive(Debug, Clone, PartialEq, Eq)]
pub enum EntryMerge {
    Resolved(Option<ObjectHash>),
    Conflict,
}

/// The value of an [`EntryMerge`].
pub enum MergeView {
    Resolved(Option<Seq<char>>),
    Conflict,
}

impl View for EntryMerge {
    type V = MergeView;

    open spec fn view(&self) -> MergeView {
        match self {
            EntryMerge::Resolved(h) => MergeView::Resolved(opt_view(*h)),
            EntryMerge::Conflict => MergeView::Conflict,
        }
    }
}

/// An optional hash taken by its view.
pub open spec fn opt_view(h: Option<String>) -> Option<Seq<char>> {
    match h {
        Some(s) => Some(s@),
        None => None,
    }
}

/// An optional borrowed hash taken by its view.
pub open spec fn opt_ref_view(h: Option<&String>) -> Option<Seq<char>> {
    match h {
        Some(s) => Some(s@),
        None => None,
    }
}

/// The three-way rule for one path, given its blob in the common ancestor,
/// on the current side and on the target side (`None`: no such file).
/// Both sides agree: keep it. Only one side changed: take that change.
/// Both changed, differently: conflict.
pub open spec fn merge_rule(
    ancestor: Option<Seq<char>>,
    current: Option<Seq<char>>,
    target: Option<Seq<char>>,
) -> MergeView {
    if current == target {
        MergeView::Resolved(current)
    } else if current == ancestor {
        MergeView::Resolved(target)
    } else if target == ancestor {
        MergeView::Resolved(current)
    } else {
        MergeView::Conflict
    }
}

/// The blob that `m` records at `path`, if any.
pub open spec fn lookup(m: Map<Seq<char>, Seq<char>>, path: Seq<char>) -> Option<Seq<char>> {
    if m.contains_key(path) {
        Some(m[path])
    } else {
        None
    }
}

/// How `path` merges between three snapshots.
pub open spec fn merge_at(
    ancestor: Map<Seq<char>, Seq<char>>,
    current: Map<Seq<char>, Seq<char>>,
    target: Map<Seq<char>, Seq<char>>,
    path: Seq<char>,
) -> MergeView {
    merge_rule(lookup(ancestor, path), lookup(current, path), lookup(target, path))
}

/// The merged snapshot: every path that resolves to a blob.
pub open spec fn merged_snapshot(
    ancestor: Map<Seq<char>, Seq<char>>,
    current: Map<Seq<char>, Seq<char>>,
    target: Map<Seq<char>, Seq<char>>,
) -> Map<Seq<char>, Seq<char>> {
    Map::new(
        |p: Seq<char>| merge_at(ancestor, current, target, p) matches MergeView::Resolved(Some(_)),
        |p: Seq<char>|
            match merge_at(ancestor, current, target, p) {
                MergeView::Resolved(Some(h)) => h,
                _ => Seq::empty(),
            },
    )
}

/// The paths that conflict.
pub open spec fn conflict_paths(
    ancestor: Map<Seq<char>, Seq<char>>,
    current: Map<Seq<char>, Seq<char>>,
    target: Map<Seq<char>, Seq<char>>,
) -> Set<Seq<char>> {
    Set::new(|p: Seq<char>| merge_at(ancestor, current, target, p) is Conflict)
}

/// The keys of `s` increase strictly.
pub open spec fn sorted_paths(s: Seq<Seq<char>>) -> bool {
    forall|i: int, j: int| 0 <= i < j < s.len() ==> key_lt(#[trigger] s[i], #[trigger] s[j])
}

/// The paths of `paths` in increasing order.
pub open spec fn ordered(paths: Set<Seq<char>>) -> Seq<Seq<char>> {
    choose|v: Seq<Seq<char>>| sorted_paths(v) && v.to_set() == paths
}

/// Two increasing lists of the same paths are the same list.
pub proof fn lemma_sorted_paths_unique(a: Seq<Seq<char>>, b: Seq<Seq<char>>)
    requires
        sorted_paths(a),
        sorted_paths(b),
        a.to_set() == b.to_set(),
    ensures
        a == b,
    decreases a.len(),
{
    lemma_key_lt_facts();
    if a.len() == 0 {
        if b.len() > 0 {
            assert(b.to_set().contains(b[0]));
        }
        assert(a =~= b);
    } else if b.len() == 0 {
        assert(a.to_set().contains(a[0]));
    } else {
        let x = a.last();
        let y = b.last();
        assert(a.to_set().contains(x));
        assert(b.to_set().contains(y));
        if x != y {
            let i = choose|i: int| 0 <= i < b.len() && b[i] == x;
            let j = choose|j: int| 0 <= j < a.len() && a[j] == y;
            assert(i < b.len() - 1);
            assert(j < a.len() - 1);
            assert(key_lt(b[i], b[b.len() - 1]));
            assert(key_lt(a[j], a[a.len() - 1]));
        }
        let da = a.drop_last();
        let db = b.drop_last();
        assert forall|q: Seq<char>| #[trigger] da.to_set().contains(q) <==> db.to_set().contains(q) by {
            if da.to_set().contains(q) {
                let i = choose|i: int| 0 <= i < da.len() && da[i] == q;
                assert(a[i] == q && key_lt(a[i], a[a.len() - 1]));
                assert(a.to_set().contains(q));
                let k = choose|k: int| 0 <= k < b.len() && b[k] == q;
                assert(k != b.len() - 1);
                assert(db[k] == q);
            }
            if db.to_set().contains(q) {
                let i = choose|i: int| 0 <= i < db.len() && db[i] == q;
                assert(b[i] == q && key_lt(b[i], b[b.len() - 1]));
                assert(b.to_set().contains(q));
                let k = choose|k: int| 0 <= k < a.len() && a[k] == q;
                assert(k != a.len() - 1);
                assert(da[k] == q);
            }
        }
        assert(da.to_set() =~= db.to_set());
        lemma_sorted_paths_unique(da, db);
        assert(a =~= da.push(x));
        assert(b =~= db.push(y));
    }
}

/// A list that increases is the ordered list of its paths.
pub proof fn lemma_ordered(v: Seq<Seq<char>>)
    requires
        sorted_paths(v),
    ensures
        ordered(v.to_set()) == v,
{
    let w = ordered(v.to_set());
    assert(sorted_paths(v) && v.to_set() == v.to_set());
    lemma_sorted_paths_unique(w, v);
}

/// Whether two optional names are equal.
fn eq_opt(a: Option<&String>, b: Option<&String>) -> (r: bool)
    ensures
        r == (opt_ref_view(a) == opt_ref_view(b)),
{
    match (a, b) {
        (Some(x), Some(y)) => *x == *y,
        (None, None) => true,
        _ => false,
    }
}

/// A copy of an optional name.
fn clone_opt(a: Option<&String>) -> (r: Option<String>)
    ensures
        opt_view(r) == opt_ref_view(a),
{
    match a {
        Some(x) => Some(x.clone()),
        None => None,
    }
}

impl Repository {
    /// Merges one path by the three-way rule.
    pub fn merge_entry(
        ancestor: Option<&ObjectHash>,
        current: Option<&ObjectHash>,
        target: Option<&ObjectHash>,
    ) -> (r: EntryMerge)
        ensures
            r@ == merge_rule(opt_ref_view(ancestor), opt_ref_view(current), opt_ref_view(target)),
    {
        if eq_opt(current, target) {
            EntryMerge::Resolved(clone_opt(current))
        } else if eq_opt(current, ancestor) {
            EntryMerge::Resolved(clone_opt(target))
        } else if eq_opt(target, ancestor) {
            EntryMerge::Resolved(clone_opt(current))
        } else {
            EntryMerge::Conflict
        }
    }
}


/// The views of a list of strings.
pub open spec fn str_views(v: Seq<String>) -> Seq<Seq<char>> {
    v.map_values(|s: String| s@)
}

/// Adds every key of `m` to `paths`.
fn add_keys(paths: &mut PathMap<()>, m: &PathMap<ObjectHash>)
    ensures
        final(paths)@.dom() == old(paths)@.dom() + m@.dom(),
{
    proof {
        use_type_invariant(m);
        m.lemma_wf();
    }
    let n = m.len();
    let mut i: usize = 0;
    while i < n
        invariant
            n == m.pairs().len(),
            i <= n,
            m.well_formed(),
            paths@.dom() == old(paths)@.dom() + Set::new(|k: Seq<char>| exists|j: int| 0 <= j < i && m.pairs()[j].0 == k),
        decreases n - i,
    {
        let (k, _) = m.entry_at(i);
        paths.insert(k.clone(), ());
        i = i + 1;
        assert(paths@.dom() =~= old(paths)@.dom() + Set::new(|k: Seq<char>| exists|j: int| 0 <= j < i && m.pairs()[j].0 == k)) by {
            assert forall|x: Seq<char>| (exists|j: int| 0 <= j < i && m.pairs()[j].0 == x) implies
                #[trigger] paths@.dom().contains(x) by {
                let j = choose|j: int| 0 <= j < i && m.pairs()[j].0 == x;
                if j == i - 1 {
                } else {
                    assert(exists|j2: int| 0 <= j2 < i - 1 && m.pairs()[j2].0 == x);
                }
            }
        }
    }
    proof {
        m.lemma_wf();
        assert forall|x: Seq<char>| m@.dom().contains(x) implies (exists|j: int| 0 <= j < n && m.pairs()[j].0 == x) by {
            assert(m@.contains_key(x));
        }
    }
    assert(paths@.dom() =~= old(paths)@.dom() + m@.dom());
}

impl Repository {
    /// Merges three snapshots path by path. Gives back the merged snapshot and
    /// the conflicting paths in path order.
    pub fn merge_entries(
        ancestor: &PathMap<ObjectHash>,
        current: &PathMap<ObjectHash>,
        target: &PathMap<ObjectHash>,
    ) -> (r: (PathMap<ObjectHash>, Vec<String>))
        ensures
            r.0@ == merged_snapshot(ancestor@, current@, target@),
            sorted_paths(str_views(r.1@)),
            str_views(r.1@).to_set() == conflict_paths(ancestor@, current@, target@),
    {
        let mut paths: PathMap<()> = PathMap::new();
        add_keys(&mut paths, ancestor);
        add_keys(&mut paths, current);
        add_keys(&mut paths, target);
        let ghost a = ancestor@;
        let ghost c = current@;
        let ghost t = target@;
        proof {
            use_type_invariant(&paths);
            paths.lemma_wf();
        }
        let mut merged: PathMap<ObjectHash> = PathMap::new();
        let mut conflicts: Vec<String> = Vec::new();
        let n = paths.len();
        let ghost keys = paths.keys();
        let mut i: usize = 0;
        while i < n
            invariant
                n == paths.pairs().len(),
                keys == paths.keys(),
                i <= n,
                a == ancestor@,
                c == current@,
                t == target@,
                paths.well_formed(),
                paths@.dom() == a.dom() + c.dom() + t.dom(),
                forall|p: Seq<char>| #[trigger] merged@.contains_key(p) <==>
                    keys.take(i as int).contains(p) && merge_at(a, c, t, p) matches MergeView::Resolved(Some(_)),
                forall|p: Seq<char>| #[trigger] merged@.contains_key(p) ==>
                    merge_at(a, c, t, p) == MergeView::Resolved(Some(merged@[p])),
                forall|p: Seq<char>| #[trigger] str_views(conflicts@).contains(p) <==>
                    keys.take(i as int).contains(p) && merge_at(a, c, t, p) is Conflict,
                sorted_paths(str_views(conflicts@)),
                forall|x: int| 0 <= x < conflicts@.len() ==> keys.take(i as int).contains(#[trigger] str_views(conflicts@)[x]),
            decreases n - i,
        {
            proof {
                paths.lemma_wf();
                lemma_key_lt_facts();
            }
            let (path, _) = paths.entry_at(i);
            let ga = ancestor.get(path.as_str());
            let gc = current.get(path.as_str());
            let gt = target.get(path.as_str());
            let ghost p = path@;
            assert(p == keys[i as int]);
            assert(opt_ref_view(ga) == lookup(a, p));
            assert(opt_ref_view(gc) == lookup(c, p));
            assert(opt_ref_view(gt) == lookup(t, p));
            let r = Repository::merge_entry(ga, gc, gt);
            let ghost old_conflicts = str_views(conflicts@);
            let ghost old_merged = merged@;
            proof {
                assert(keys.take(i + 1) =~= keys.take(i as int).push(p));
                assert(!keys.take(i as int).contains(p)) by {
                    if keys.take(i as int).contains(p) {
                        let j = choose|j: int| 0 <= j < i && keys.take(i as int)[j] == p;
                        assert(key_lt(paths.pairs()[j].0, paths.pairs()[i as int].0));
                    }
                }
            }
            match r {
                EntryMerge::Resolved(Some(hash)) => {
                    merged.insert(path.clone(), hash);
                },
                EntryMerge::Resolved(None) => {},
                EntryMerge::Conflict => {
                    conflicts.push(path.clone());
                    proof {
                        assert(str_views(conflicts@) =~= old_conflicts.push(p));
                        assert forall|x: int, y: int| 0 <= x < y < str_views(conflicts@).len() implies
                            key_lt(#[trigger] str_views(conflicts@)[x], #[trigger] str_views(conflicts@)[y]) by {
                            if y == old_conflicts.len() {
                                assert(keys.take(i as int).contains(old_conflicts[x]));
                                let j = choose|j: int| 0 <= j < i && keys.take(i as int)[j] == old_conflicts[x];
                                assert(key_lt(paths.pairs()[j].0, paths.pairs()[i as int].0));
                            } else {
                                assert(old_conflicts[x] == str_views(conflicts@)[x]);
                                assert(old_conflicts[y] == str_views(conflicts@)[y]);
                            }
                        }
                    }
                },
            }
            proof {
                assert forall|x: int| 0 <= x < conflicts@.len() implies keys.take(i + 1).contains(#[trigger] str_views(conflicts@)[x]) by {
                    if x < old_conflicts.len() {
                        assert(str_views(conflicts@)[x] == old_conflicts[x]);
                        assert(keys.take(i as int).contains(old_conflicts[x]));
                        let j = choose|j: int| 0 <= j < i && keys.take(i as int)[j] == old_conflicts[x];
                        assert(keys.take(i + 1)[j] == old_conflicts[x]);
                    } else {
                        assert(str_views(conflicts@)[x] == p);
                        assert(keys.take(i + 1)[i as int] == p);
                    }
                }
                assert forall|q: Seq<char>| keys.take(i + 1).contains(q) <==> keys.take(i as int).contains(q) || q == p by {
                    if q == p {
                        assert(keys.take(i + 1)[i as int] == p);
                    }
                    if keys.take(i as int).contains(q) {
                        let j = choose|j: int| 0 <= j < i && keys.take(i as int)[j] == q;
                        assert(keys.take(i + 1)[j] == q);
                    }
                    if keys.take(i + 1).contains(q) && q != p {
                        let j = choose|j: int| 0 <= j < i + 1 && #[trigger] keys.take(i + 1)[j] == q;
                        assert(keys.take(i as int)[j] == q);
                    }
                }
                assert forall|q: Seq<char>| #[trigger] merged@.contains_key(q) <==>
                    keys.take(i + 1).contains(q) && merge_at(a, c, t, q) matches MergeView::Resolved(Some(_)) by {
                    if q != p {
                        assert(merged@.contains_key(q) == old_merged.contains_key(q));
                    }
                }
                assert forall|q: Seq<char>| #[trigger] merged@.contains_key(q) implies
                    merge_at(a, c, t, q) == MergeView::Resolved(Some(merged@[q])) by {
                    if q != p {
                        assert(old_merged.contains_key(q));
                    }
                }
                assert forall|q: Seq<char>| #[trigger] str_views(conflicts@).contains(q) <==>
                    keys.take(i + 1).contains(q) && merge_at(a, c, t, q) is Conflict by {
                    if str_views(conflicts@).contains(q) {
                        let x = choose|x: int| 0 <= x < str_views(conflicts@).len() && str_views(conflicts@)[x] == q;
                        if x < old_conflicts.len() {
                            assert(old_conflicts.contains(q));
                        }
                    }
                    if keys.take(i + 1).contains(q) && merge_at(a, c, t, q) is Conflict && q != p {
                        assert(old_conflicts.contains(q));
                        let x = choose|x: int| 0 <= x < old_conflicts.len() && old_conflicts[x] == q;
                        assert(str_views(conflicts@)[x] == q);
                    }
                    if q == p && merge_at(a, c, t, q) is Conflict {
                        assert(str_views(conflicts@)[old_conflicts.len() as int] == q);
                    }
                }
            }
            i = i + 1;
        }
        proof {
            paths.lemma_wf();
            assert(keys.take(n as int) =~= keys);
            assert forall|p: Seq<char>| !(merge_at(a, c, t, p) matches MergeView::Resolved(None))
                implies keys.contains(p) by {
                assert(paths@.contains_key(p));
            }
            assert(merged@ =~= merged_snapshot(a, c, t));
            assert(str_views(conflicts@).to_set() =~= conflict_paths(a, c, t));
        }
        (merged, conflicts)
    }
}

/// Merging is symmetric in its two sides: swapping the current and the target
/// snapshot gives the same merged snapshot and the same conflicts.
pub proof fn law_merge_symmetric(
    ancestor: Map<Seq<char>, Seq<char>>,
    current: Map<Seq<char>, Seq<char>>,
    target: Map<Seq<char>, Seq<char>>,
)
    ensures
        merged_snapshot(ancestor, current, target) == merged_snapshot(ancestor, target, current),
        conflict_paths(ancestor, current, target) == conflict_paths(ancestor, target, current),
{
    assert(merged_snapshot(ancestor, current, target) =~= merged_snapshot(ancestor, target, current));
    assert(conflict_paths(ancestor, current, target) =~= conflict_paths(ancestor, target, current));
}

/// When the current side has not changed since the ancestor, the merge is
/// the target snapshot, without conflicts.
pub proof fn law_merge_unchanged_current(
    ancestor: Map<Seq<char>, Seq<char>>,
    target: Map<Seq<char>, Seq<char>>,
)
    ensures
        merged_snapshot(ancestor, ancestor, target) == target,
        conflict_paths(ancestor, ancestor, target).is_empty(),
{
    assert(merged_snapshot(ancestor, ancestor, target) =~= target);
    assert(conflict_paths(ancestor, ancestor, target) =~= Set::empty());
}

/// When the target side has not changed since the ancestor, the merge is
/// the current snapshot, without conflicts.
pub proof fn law_merge_unchanged_target(
    ancestor: Map<Seq<char>, Seq<char>>,
    current: Map<Seq<char>, Seq<char>>,
)
    ensures
        merged_snapshot(ancestor, current, ancestor) == current,
        conflict_paths(ancestor, current, ancestor).is_empty(),
{
    assert(merged_snapshot(ancestor, current, ancestor) =~= current);
    assert(conflict_paths(ancestor, current, ancestor) =~= Set::empty());
}

/// When both sides hold the same snapshot, the merge is that snapshot,
/// without conflicts, whatever the ancestor.
pub proof fn law_merge_same_sides(
    ancestor: Map<Seq<char>, Seq<char>>,
    both: Map<Seq<char>, Seq<char>>,
)
    ensures
        merged_snapshot(ancestor, both, both) == both,
        conflict_paths(ancestor, both, both).is_empty(),
{
    assert(merged_snapshot(ancestor, both, both) =~= both);
    assert(conflict_paths(ancestor, both, both) =~= Set::empty());
}

/// Merging works at whole-file granularity: a path conflicts exactly when
/// both sides changed it since the ancestor, and differently (adding and
/// deleting a file count as changes).
pub proof fn law_conflict_iff_both_changed(
    ancestor: Map<Seq<char>, Seq<char>>,
    current: Map<Seq<char>, Seq<char>>,
    target: Map<Seq<char>, Seq<char>>,
    path: Seq<char>,
)
    ensures
        conflict_paths(ancestor, current, target).contains(path) <==> {
            &&& lookup(current, path) != lookup(ancestor, path)
            &&& lookup(target, path) != lookup(ancestor, path)
            &&& lookup(current, path) != lookup(target, path)
        },
{
}

/// A path that does not conflict takes the side that changed it: the
/// current side's version if it changed, else the target side's. A path
/// that resolves to no file is absent from the merge.
pub proof fn law_merge_takes_changes(
    ancestor: Map<Seq<char>, Seq<char>>,
    current: Map<Seq<char>, Seq<char>>,
    target: Map<Seq<char>, Seq<char>>,
    path: Seq<char>,
)
    requires
        !conflict_paths(ancestor, current, target).contains(path),
    ensures
        lookup(merged_snapshot(ancestor, current, target), path) == if lookup(current, path) != lookup(ancestor, path) {
            lookup(current, path)
        } else {
            lookup(target, path)
        },
{
}

/// A conflicting path is absent from the merged snapshot, and every path of
/// the merged snapshot resolved to the blob it holds there.
pub proof fn law_conflicts_left_out(
    ancestor: Map<Seq<char>, Seq<char>>,
    current: Map<Seq<char>, Seq<char>>,
    target: Map<Seq<char>, Seq<char>>,
    path: Seq<char>,
)
    ensures
        conflict_paths(ancestor, current, target).contains(path) ==> !merged_snapshot(ancestor, current, target).contains_key(path),
        merged_snapshot(ancestor, current, target).contains_key(path) ==> merge_at(ancestor, current, target, path)
            == MergeView::Resolved(Some(merged_snapshot(ancestor, current, target)[path])),
{
}

/// Appends the UTF-8 bytes of `s` to `out`.
pub fn append_str(out: &mut Vec<u8>, s: &str)
    ensures
        final(out)@ == old(out)@ + encode_utf8(s@),
{
    append_bytes(out, s.as_bytes());
}

/// Appends `bytes` to `out`.
pub fn append_bytes(out: &mut Vec<u8>, bytes: &[u8])
    ensures
        final(out)@ == old(out)@ + bytes@,
{
    let ghost start = out@;
    let mut i: usize = 0;
    while i < bytes.len()
        invariant
            i <= bytes@.len(),
            out@ == start + bytes@.take(i as int),
        decreases bytes.len() - i,
    {
        out.push(bytes[i]);
        i = i + 1;
        assert(out@ =~= start + bytes@.take(i as int));
    }
    assert(bytes@.take(i as int) =~= bytes@);
}

/// The bytes end with a line feed.
pub open spec fn ends_with_newline(bytes: Seq<u8>) -> bool {
    bytes.len() > 0 && bytes.last() == 10u8
}

/// The bytes, with a line feed added unless they already end with one.
pub open spec fn terminated(bytes: Seq<u8>) -> Seq<u8> {
    if ends_with_newline(bytes) {
        bytes
    } else {
        bytes.push(10u8)
    }
}

/// The contents written for a conflicting file: both versions between
/// Git-style markers, each ended by a line feed, the target side labelled
/// with its branch.
pub open spec fn conflict_file(current: Seq<u8>, target: Seq<u8>, target_branch: Seq<char>) -> Seq<u8> {
    encode_utf8("<<<<<<< HEAD\n"@) + terminated(current) + encode_utf8("=======\n"@) + terminated(target)
        + encode_utf8(">>>>>>> "@) + encode_utf8(target_branch) + encode_utf8("\n"@)
}

/// Appends `bytes`, then a line feed unless they end with one.
fn append_terminated(out: &mut Vec<u8>, bytes: &[u8])
    ensures
        final(out)@ == old(out)@ + terminated(bytes@),
{
    append_bytes(out, bytes);
    if !(bytes.len() > 0 && bytes[bytes.len() - 1] == 10u8) {
        out.push(10u8);
    }
}

impl Repository {
    /// The contents of a conflicting file, with conflict markers.
    pub fn conflict_bytes(current: &[u8], target: &[u8], target_branch: &str) -> (r: Vec<u8>)
        ensures
            r@ == conflict_file(current@, target@, target_branch@),
    {
        let mut result: Vec<u8> = Vec::new();
        append_str(&mut result, "<<<<<<< HEAD\n");
        append_terminated(&mut result, current);
        append_str(&mut result, "=======\n");
        append_terminated(&mut result, target);
        append_str(&mut result, ">>>>>>> ");
        append_str(&mut result, target_branch);
        append_str(&mut result, "\n");
        assert(result@ =~= conflict_file(current@, target@, target_branch@));
        result
    }
}
} // verus!
