//! Walking the commit history: the log along first parents, and the search
//! for a common ancestor of two commits.

use vstd::prelude::*;

use crate::digest::ObjectHash;
use crate::object::{Commit, CommitView, Object, ObjectView};
use crate::pathmap::PathMap;
use crate::repo::{opt_string_view, spec_head_commit, spec_read_object, ErrorView, RepoError, Repository, StoreView};

verus! {

/// The first parent of a commit, if it has parents.
pub open spec fn first_parent(parents: Seq<Seq<char>>) -> Option<Seq<char>> {
    if parents.len() > 0 {
        Some(parents[0])
    } else {
        None
    }
}

/// The commits met following first parents from `start`, newest first, for
/// at most `fuel` commits. Every commit met is an object of the store, so a
/// chain longer than the store can only come from a cycle, which content
/// addressing rules out; it is reported as a corrupted object.
pub open spec fn first_parent_chain(s: StoreView, start: Option<Seq<char>>, fuel: nat) -> Result<Seq<(Seq<char>, CommitView)>, ErrorView>
    decreases fuel,
{
    match start {
        None => Ok(Seq::empty()),
        Some(h) => if fuel == 0 {
            Err(ErrorView::CorruptedObject(h))
        } else {
            match spec_read_object(s.objects, h) {
                Err(e) => Err(e),
                Ok(ObjectView::Commit(c)) => match first_parent_chain(s, first_parent(c.parents), (fuel - 1) as nat) {
                    Err(e) => Err(e),
                    Ok(rest) => Ok(seq![(h, c)] + rest),
                },
                Ok(_) => Err(ErrorView::ExpectedCommit),
            }
        },
    }
}

/// A chain along first parents that ends without error starts at `start`,
/// steps from each commit to its first parent, ends at a commit without
/// parents, and lists commits that read back as listed.
pub proof fn lemma_chain_shape(s: StoreView, start: Option<Seq<char>>, fuel: nat)
    requires
        first_parent_chain(s, start, fuel) is Ok,
    ensures
        ({
            let l = first_parent_chain(s, start, fuel)->Ok_0;
            &&& (l.len() == 0 <==> start is None)
            &&& l.len() > 0 ==> start == Some(l[0].0)
            &&& forall|i: int| 0 <= i < l.len() - 1 ==> first_parent((#[trigger] l[i]).1.parents) == Some(l[i + 1].0)
            &&& l.len() > 0 ==> l.last().1.parents.len() == 0
            &&& forall|i: int| 0 <= i < l.len() ==> spec_read_object(s.objects, (#[trigger] l[i]).0)
                == Ok::<ObjectView, ErrorView>(ObjectView::Commit(l[i].1))
        }),
    decreases fuel,
{
    if let Some(h) = start {
        let c = spec_read_object(s.objects, h)->Ok_0->Commit_0;
        let next = first_parent(c.parents);
        lemma_chain_shape(s, next, (fuel - 1) as nat);
        let rest = first_parent_chain(s, next, (fuel - 1) as nat)->Ok_0;
        let l = first_parent_chain(s, start, fuel)->Ok_0;
        assert(l == seq![(h, c)] + rest);
        assert forall|i: int| 0 <= i < l.len() - 1 implies first_parent((#[trigger] l[i]).1.parents) == Some(l[i + 1].0) by {
            if i > 0 {
                assert(l[i] == rest[i - 1]);
                assert(l[i + 1] == rest[i]);
            } else {
                assert(l[1] == rest[0]);
            }
        }
        assert forall|i: int| 0 <= i < l.len() implies spec_read_object(s.objects, (#[trigger] l[i]).0)
            == Ok::<ObjectView, ErrorView>(ObjectView::Commit(l[i].1)) by {
            if i > 0 {
                assert(l[i] == rest[i - 1]);
            }
        }
        if rest.len() > 0 {
            assert(l.last() == rest.last());
        }
    }
}

/// `l` is a stored first-parent chain: each listed commit is the stored
/// commit of its name, each is followed by its first parent, and the last
/// has no parent.
pub open spec fn stored_chain(s: StoreView, l: Seq<(Seq<char>, CommitView)>) -> bool {
    &&& forall|i: int| 0 <= i < l.len() ==> spec_read_object(s.objects, (#[trigger] l[i]).0)
        == Ok::<ObjectView, ErrorView>(ObjectView::Commit(l[i].1))
    &&& forall|i: int| 0 <= i < l.len() - 1 ==> first_parent((#[trigger] l[i]).1.parents) == Some(l[i + 1].0)
    &&& l.len() > 0 ==> l.last().1.parents.len() == 0
}

/// A stored chain never meets a commit twice: from a repeated name on, both
/// runs would read the same commits, and the earlier run would reach the
/// parentless end while still having a parent.
proof fn lemma_chain_distinct(s: StoreView, l: Seq<(Seq<char>, CommitView)>, i: int, j: int)
    requires
        stored_chain(s, l),
        0 <= i < j < l.len(),
    ensures
        l[i].0 != l[j].0,
    decreases l.len() - j,
{
    if l[i].0 == l[j].0 {
        assert(spec_read_object(s.objects, l[i].0) == Ok::<ObjectView, ErrorView>(ObjectView::Commit(l[i].1)));
        assert(spec_read_object(s.objects, l[j].0) == Ok::<ObjectView, ErrorView>(ObjectView::Commit(l[j].1)));
        assert(l[i].1 == l[j].1);
        assert(first_parent(l[i].1.parents) == Some(l[i + 1].0));
        if j == l.len() - 1 {
            assert(l[j].1.parents.len() == 0);
        } else {
            assert(first_parent(l[j].1.parents) == Some(l[j + 1].0));
            lemma_chain_distinct(s, l, i + 1, j + 1);
        }
    }
}

/// A stored chain is no longer than the store has objects.
pub proof fn lemma_chain_fits(s: StoreView, l: Seq<(Seq<char>, CommitView)>)
    requires
        stored_chain(s, l),
        s.objects.dom().finite(),
    ensures
        l.len() <= s.objects.len(),
{
    let names = l.map_values(|e: (Seq<char>, CommitView)| e.0);
    assert forall|a: int, b: int| 0 <= a < names.len() && 0 <= b < names.len() && a != b implies names[a] != names[b] by {
        if a < b {
            lemma_chain_distinct(s, l, a, b);
        } else {
            lemma_chain_distinct(s, l, b, a);
        }
    }
    assert(names.no_duplicates());
    names.unique_seq_to_set();
    assert forall|x: Seq<char>| names.to_set().contains(x) implies s.objects.dom().contains(x) by {
        let k = choose|k: int| 0 <= k < names.len() && names[k] == x;
        assert(spec_read_object(s.objects, l[k].0) is Ok);
        crate::repo::law_read_object_is_addressed(s.objects, l[k].0);
    }
    vstd::set_lib::lemma_len_subset(names.to_set(), s.objects.dom());
}

/// Following first parents from the `k`-th commit of a stored chain, with
/// fuel for the rest of it, gives the rest of it.
pub proof fn lemma_chain_from(s: StoreView, l: Seq<(Seq<char>, CommitView)>, k: int, fuel: nat)
    requires
        stored_chain(s, l),
        0 <= k <= l.len(),
        fuel >= l.len() - k,
    ensures
        first_parent_chain(s, if k < l.len() { Some(l[k].0) } else { None }, fuel)
            == Ok::<Seq<(Seq<char>, CommitView)>, ErrorView>(l.subrange(k, l.len() as int)),
    decreases l.len() - k,
{
    if k == l.len() {
        assert(l.subrange(k, l.len() as int) =~= Seq::<(Seq<char>, CommitView)>::empty());
    } else {
        assert(spec_read_object(s.objects, l[k].0) == Ok::<ObjectView, ErrorView>(ObjectView::Commit(l[k].1)));
        if k < l.len() - 1 {
            assert(first_parent(l[k].1.parents) == Some(l[k + 1].0));
        } else {
            assert(l.last() == l[k]);
        }
        lemma_chain_from(s, l, k + 1, (fuel - 1) as nat);
        assert(l.subrange(k, l.len() as int) =~= seq![(l[k].0, l[k].1)] + l.subrange(k + 1, l.len() as int));
    }
}

/// The history that `log` lists: from the commit `HEAD` stands at, along
/// first parents, newest first.
pub open spec fn spec_log(s: StoreView) -> Result<Seq<(Seq<char>, CommitView)>, ErrorView> {
    match spec_head_commit(s) {
        Err(e) => Err(e),
        Ok(h) => first_parent_chain(s, h, s.objects.len()),
    }
}

/// The entries of a log, taken by their views.
pub open spec fn log_view(v: Seq<(ObjectHash, Commit)>) -> Seq<(Seq<char>, CommitView)> {
    v.map_values(|e: (ObjectHash, Commit)| (e.0@, e.1@))
}

/// The parents of commit `h`.
pub open spec fn parents_of(s: StoreView, h: Seq<char>) -> Result<Seq<Seq<char>>, ErrorView> {
    match spec_read_object(s.objects, h) {
        Err(e) => Err(e),
        Ok(ObjectView::Commit(c)) => Ok(c.parents),
        Ok(_) => Err(ErrorView::ExpectedCommit),
    }
}

/// Visiting one more stored commit leaves fewer stored commits unvisited.
pub proof fn lemma_visit_shrinks(s: StoreView, visited: Set<Seq<char>>, h: Seq<char>)
    requires
        s.objects.dom().finite(),
        visited.subset_of(s.objects.dom()),
        s.objects.contains_key(h),
        !visited.contains(h),
    ensures
        visited.insert(h).subset_of(s.objects.dom()),
        s.objects.dom().difference(visited.insert(h)).len() < s.objects.dom().difference(visited).len(),
{
    let d = s.objects.dom().difference(visited);
    assert(s.objects.dom().difference(visited.insert(h)) =~= d.remove(h));
    assert(d.contains(h));
}

/// Depth-first collection of every commit reachable from `stack` through
/// parents, `visited` holding those already collected. The last commit of
/// the stack is visited first, and a commit's parents are pushed in order.
pub open spec fn collect_ancestors(s: StoreView, stack: Seq<Seq<char>>, visited: Set<Seq<char>>) -> Result<Set<Seq<char>>, ErrorView>
    decreases s.objects.dom().difference(visited).len(), stack.len(),
    when s.objects.dom().finite() && visited.subset_of(s.objects.dom())
{
    if stack.len() == 0 {
        Ok(visited)
    } else {
        let h = stack.last();
        if visited.contains(h) {
            collect_ancestors(s, stack.drop_last(), visited)
        } else {
            match parents_of(s, h) {
                Err(e) => Err(e),
                Ok(ps) => {
                    proof {
                        crate::repo::law_read_object_is_addressed(s.objects, h);
                        lemma_visit_shrinks(s, visited, h);
                    }
                    collect_ancestors(s, stack.drop_last() + ps, visited.insert(h))
                },
            }
        }
    }
}

/// Depth-first search from `stack` for the first commit in `targets`, in
/// the same order as [`collect_ancestors`].
pub open spec fn search_ancestor(
    s: StoreView,
    targets: Set<Seq<char>>,
    stack: Seq<Seq<char>>,
    visited: Set<Seq<char>>,
) -> Result<Option<Seq<char>>, ErrorView>
    decreases s.objects.dom().difference(visited).len(), stack.len(),
    when s.objects.dom().finite() && visited.subset_of(s.objects.dom())
{
    if stack.len() == 0 {
        Ok(None)
    } else {
        let h = stack.last();
        if targets.contains(h) {
            Ok(Some(h))
        } else if visited.contains(h) {
            search_ancestor(s, targets, stack.drop_last(), visited)
        } else {
            match parents_of(s, h) {
                Err(e) => Err(e),
                Ok(ps) => {
                    proof {
                        crate::repo::law_read_object_is_addressed(s.objects, h);
                        lemma_visit_shrinks(s, visited, h);
                    }
                    search_ancestor(s, targets, stack.drop_last() + ps, visited.insert(h))
                },
            }
        }
    }
}

/// The common ancestor that the search finds: every ancestor of `left` is
/// collected, then the ancestors of `right` are searched, depth first, for
/// one of them.
pub open spec fn spec_find_common_ancestor(s: StoreView, left: Seq<char>, right: Seq<char>) -> Result<Option<Seq<char>>, ErrorView> {
    match collect_ancestors(s, seq![left], Set::empty()) {
        Err(e) => Err(e),
        Ok(anc) => search_ancestor(s, anc, seq![right], Set::empty()),
    }
}

/// `p` walks along parent links: each commit after the first is a parent
/// of the one before it.
pub open spec fn parent_walk(s: StoreView, p: Seq<Seq<char>>) -> bool {
    &&& p.len() > 0
    &&& forall|i: int| 0 <= i < p.len() - 1 ==> (#[trigger] parents_of(s, p[i])) is Ok && parents_of(s, p[i])->Ok_0.contains(p[i + 1])
}

/// `a` is `h` or one of its ancestors: a walk along parent links leads from
/// `h` to `a`.
pub open spec fn is_ancestor(s: StoreView, a: Seq<char>, h: Seq<char>) -> bool {
    exists|p: Seq<Seq<char>>| #[trigger] parent_walk(s, p) && p[0] == h && p.last() == a
}

/// A commit is its own ancestor.
pub proof fn lemma_ancestor_refl(s: StoreView, h: Seq<char>)
    ensures
        is_ancestor(s, h, h),
{
    let p = seq![h];
    assert(parent_walk(s, p));
}

/// A parent of an ancestor is an ancestor.
pub proof fn lemma_ancestor_step(s: StoreView, x: Seq<char>, h: Seq<char>, a: Seq<char>)
    requires
        is_ancestor(s, x, h),
        parents_of(s, x) is Ok,
        parents_of(s, x)->Ok_0.contains(a),
    ensures
        is_ancestor(s, a, h),
{
    let p = choose|p: Seq<Seq<char>>| #[trigger] parent_walk(s, p) && p[0] == h && p.last() == x;
    let q = p.push(a);
    assert forall|i: int| 0 <= i < q.len() - 1 implies (#[trigger] parents_of(s, q[i])) is Ok && parents_of(s, q[i])->Ok_0.contains(q[i + 1]) by {
        if i < p.len() - 1 {
            assert(q[i] == p[i] && q[i + 1] == p[i + 1]);
        } else {
            assert(q[i] == x && q[i + 1] == a);
        }
    }
    assert(parent_walk(s, q) && q[0] == h && q.last() == a);
}

/// A walk that starts inside `set` stays inside it when `set` holds, with
/// every commit, its parents.
proof fn lemma_walk_stays(s: StoreView, set: Set<Seq<char>>, p: Seq<Seq<char>>, i: int)
    requires
        parent_walk(s, p),
        0 <= i < p.len(),
        set.contains(p[i]),
        forall|x: Seq<char>| #[trigger] set.contains(x) ==> parents_of(s, x) is Ok
            && forall|y: Seq<char>| parents_of(s, x)->Ok_0.contains(y) ==> set.contains(y),
    ensures
        set.contains(p.last()),
    decreases p.len() - i,
{
    if i < p.len() - 1 {
        assert(parents_of(s, p[i]) is Ok && parents_of(s, p[i])->Ok_0.contains(p[i + 1]));
        lemma_walk_stays(s, set, p, i + 1);
    }
}

/// The ancestors of `h` all lie in `set` when `set` holds `h` and, with
/// every commit, its parents.
pub proof fn lemma_closed_holds_ancestors(s: StoreView, set: Set<Seq<char>>, h: Seq<char>, a: Seq<char>)
    requires
        set.contains(h),
        forall|x: Seq<char>| #[trigger] set.contains(x) ==> parents_of(s, x) is Ok
            && forall|y: Seq<char>| parents_of(s, x)->Ok_0.contains(y) ==> set.contains(y),
        is_ancestor(s, a, h),
    ensures
        set.contains(a),
{
    let p = choose|p: Seq<Seq<char>>| #[trigger] parent_walk(s, p) && p[0] == h && p.last() == a;
    lemma_walk_stays(s, set, p, 0);
}

/// Every commit that the collection gathers beyond `visited` is an ancestor
/// of `root`, when the stack and `visited` hold only ancestors of it.
pub proof fn lemma_collect_sound(s: StoreView, root: Seq<char>, stack: Seq<Seq<char>>, visited: Set<Seq<char>>)
    requires
        s.objects.dom().finite(),
        visited.subset_of(s.objects.dom()),
        forall|x: Seq<char>| #[trigger] stack.contains(x) ==> is_ancestor(s, x, root),
        forall|x: Seq<char>| #[trigger] visited.contains(x) ==> is_ancestor(s, x, root),
    ensures
        collect_ancestors(s, stack, visited) matches Ok(anc) ==> forall|x: Seq<char>| #[trigger] anc.contains(x) ==> is_ancestor(s, x, root),
    decreases s.objects.dom().difference(visited).len(), stack.len(),
{
    if stack.len() > 0 {
        let h = stack.last();
        let rest = stack.drop_last();
        assert forall|x: Seq<char>| #[trigger] rest.contains(x) implies is_ancestor(s, x, root) by {
            let i = choose|i: int| 0 <= i < rest.len() && rest[i] == x;
            assert(stack[i] == x);
            assert(stack.contains(x));
        }
        assert(stack.contains(h)) by {
            assert(stack[stack.len() - 1] == h);
        }
        if visited.contains(h) {
            lemma_collect_sound(s, root, rest, visited);
        } else {
            match parents_of(s, h) {
                Err(_) => {},
                Ok(ps) => {
                    crate::repo::law_read_object_is_addressed(s.objects, h);
                    lemma_visit_shrinks(s, visited, h);
                    let next = rest + ps;
                    assert forall|x: Seq<char>| #[trigger] next.contains(x) implies is_ancestor(s, x, root) by {
                        let i = choose|i: int| 0 <= i < next.len() && next[i] == x;
                        if i < rest.len() {
                            assert(rest[i] == x);
                            assert(rest.contains(x));
                        } else {
                            assert(ps[i - rest.len()] == x);
                            assert(ps.contains(x));
                            lemma_ancestor_step(s, h, root, x);
                        }
                    }
                    lemma_collect_sound(s, root, next, visited.insert(h));
                },
            }
        }
    }
}

/// The collection gathers the stack and `visited`, and what it gathers holds
/// the parents of each of its commits, when every commit of `visited` has
/// its parents in `visited` or on the stack.
pub proof fn lemma_collect_closed(s: StoreView, stack: Seq<Seq<char>>, visited: Set<Seq<char>>)
    requires
        s.objects.dom().finite(),
        visited.subset_of(s.objects.dom()),
        forall|x: Seq<char>| #[trigger] visited.contains(x) ==> parents_of(s, x) is Ok
            && forall|y: Seq<char>| parents_of(s, x)->Ok_0.contains(y) ==> visited.contains(y) || stack.contains(y),
    ensures
        collect_ancestors(s, stack, visited) matches Ok(anc) ==> {
            &&& visited.subset_of(anc)
            &&& forall|x: Seq<char>| #[trigger] stack.contains(x) ==> anc.contains(x)
            &&& forall|x: Seq<char>| #[trigger] anc.contains(x) ==> parents_of(s, x) is Ok
                && forall|y: Seq<char>| parents_of(s, x)->Ok_0.contains(y) ==> anc.contains(y)
        },
    decreases s.objects.dom().difference(visited).len(), stack.len(),
{
    if stack.len() > 0 {
        let h = stack.last();
        let rest = stack.drop_last();
        assert forall|y: Seq<char>| #[trigger] stack.contains(y) && y != h implies rest.contains(y) by {
            let i = choose|i: int| 0 <= i < stack.len() && stack[i] == y;
            assert(rest[i] == y);
        }
        if visited.contains(h) {
            lemma_collect_closed(s, rest, visited);
            if collect_ancestors(s, rest, visited) is Ok {
                let anc = collect_ancestors(s, rest, visited)->Ok_0;
                assert forall|x: Seq<char>| #[trigger] stack.contains(x) implies anc.contains(x) by {
                    if x != h {
                        assert(rest.contains(x));
                    }
                }
            }
        } else {
            match parents_of(s, h) {
                Err(_) => {},
                Ok(ps) => {
                    crate::repo::law_read_object_is_addressed(s.objects, h);
                    lemma_visit_shrinks(s, visited, h);
                    let next = rest + ps;
                    let v2 = visited.insert(h);
                    assert forall|y: Seq<char>| #[trigger] rest.contains(y) implies next.contains(y) by {
                        let i = choose|i: int| 0 <= i < rest.len() && rest[i] == y;
                        assert(next[i] == y);
                    }
                    assert forall|y: Seq<char>| #[trigger] ps.contains(y) implies next.contains(y) by {
                        let i = choose|i: int| 0 <= i < ps.len() && ps[i] == y;
                        assert(next[rest.len() + i] == y);
                    }
                    assert forall|x: Seq<char>| #[trigger] v2.contains(x) implies parents_of(s, x) is Ok
                        && forall|y: Seq<char>| parents_of(s, x)->Ok_0.contains(y) ==> v2.contains(y) || next.contains(y) by {
                        if x != h {
                            assert forall|y: Seq<char>| parents_of(s, x)->Ok_0.contains(y) implies v2.contains(y) || next.contains(y) by {
                                if !visited.contains(y) && y != h {
                                    assert(stack.contains(y));
                                    assert(rest.contains(y));
                                }
                            }
                        }
                    }
                    lemma_collect_closed(s, next, v2);
                    if collect_ancestors(s, next, v2) is Ok {
                        let anc = collect_ancestors(s, next, v2)->Ok_0;
                        assert forall|x: Seq<char>| #[trigger] stack.contains(x) implies anc.contains(x) by {
                            if x != h {
                                assert(rest.contains(x));
                                assert(next.contains(x));
                            } else {
                                assert(v2.contains(h));
                            }
                        }
                    }
                },
            }
        }
    }
}

/// Every commit that the search finds is a target and an ancestor of
/// `root`, when the stack holds only ancestors of it.
pub proof fn lemma_search_sound(
    s: StoreView,
    targets: Set<Seq<char>>,
    root: Seq<char>,
    stack: Seq<Seq<char>>,
    visited: Set<Seq<char>>,
)
    requires
        s.objects.dom().finite(),
        visited.subset_of(s.objects.dom()),
        forall|x: Seq<char>| #[trigger] stack.contains(x) ==> is_ancestor(s, x, root),
    ensures
        search_ancestor(s, targets, stack, visited) matches Ok(Some(a)) ==> targets.contains(a) && is_ancestor(s, a, root),
    decreases s.objects.dom().difference(visited).len(), stack.len(),
{
    if stack.len() > 0 {
        let h = stack.last();
        let rest = stack.drop_last();
        assert forall|x: Seq<char>| #[trigger] rest.contains(x) implies is_ancestor(s, x, root) by {
            let i = choose|i: int| 0 <= i < rest.len() && rest[i] == x;
            assert(stack[i] == x);
            assert(stack.contains(x));
        }
        assert(stack.contains(h)) by {
            assert(stack[stack.len() - 1] == h);
        }
        if targets.contains(h) {
        } else if visited.contains(h) {
            lemma_search_sound(s, targets, root, rest, visited);
        } else {
            match parents_of(s, h) {
                Err(_) => {},
                Ok(ps) => {
                    crate::repo::law_read_object_is_addressed(s.objects, h);
                    lemma_visit_shrinks(s, visited, h);
                    let next = rest + ps;
                    assert forall|x: Seq<char>| #[trigger] next.contains(x) implies is_ancestor(s, x, root) by {
                        let i = choose|i: int| 0 <= i < next.len() && next[i] == x;
                        if i < rest.len() {
                            assert(rest[i] == x);
                            assert(rest.contains(x));
                        } else {
                            assert(ps[i - rest.len()] == x);
                            assert(ps.contains(x));
                            lemma_ancestor_step(s, h, root, x);
                        }
                    }
                    lemma_search_sound(s, targets, root, next, visited.insert(h));
                },
            }
        }
    }
}

/// A walk along parent links leads from `root` to `x` without meeting a
/// commit of `targets` before `x`.
pub open spec fn clear_walk(s: StoreView, targets: Set<Seq<char>>, root: Seq<char>, x: Seq<char>) -> bool {
    exists|p: Seq<Seq<char>>|
        #[trigger] parent_walk(s, p) && p[0] == root && p.last() == x
            && forall|i: int| 0 <= i < p.len() - 1 ==> !targets.contains(#[trigger] p[i])
}

/// A clear walk to a commit outside `targets` extends to each of its parents.
proof fn lemma_clear_step(s: StoreView, targets: Set<Seq<char>>, root: Seq<char>, h: Seq<char>, y: Seq<char>)
    requires
        clear_walk(s, targets, root, h),
        !targets.contains(h),
        parents_of(s, h) is Ok,
        parents_of(s, h)->Ok_0.contains(y),
    ensures
        clear_walk(s, targets, root, y),
{
    let p = choose|p: Seq<Seq<char>>|
        #[trigger] parent_walk(s, p) && p[0] == root && p.last() == h
            && forall|i: int| 0 <= i < p.len() - 1 ==> !targets.contains(#[trigger] p[i]);
    let q = p.push(y);
    assert forall|i: int| 0 <= i < q.len() - 1 implies (#[trigger] parents_of(s, q[i])) is Ok && parents_of(s, q[i])->Ok_0.contains(q[i + 1]) by {
        if i < p.len() - 1 {
            assert(q[i] == p[i] && q[i + 1] == p[i + 1]);
        } else {
            assert(q[i] == h && q[i + 1] == y);
        }
    }
    assert forall|i: int| 0 <= i < q.len() - 1 implies !targets.contains(#[trigger] q[i]) by {
        if i < p.len() - 1 {
            assert(q[i] == p[i]);
        } else {
            assert(q[i] == h);
        }
    }
    assert(parent_walk(s, q) && q[0] == root && q.last() == y);
}

/// The search finds a commit only by a clear walk from `root`, when every
/// commit of the stack is reached by one.
pub proof fn lemma_search_clear(
    s: StoreView,
    targets: Set<Seq<char>>,
    root: Seq<char>,
    stack: Seq<Seq<char>>,
    visited: Set<Seq<char>>,
)
    requires
        s.objects.dom().finite(),
        visited.subset_of(s.objects.dom()),
        forall|x: Seq<char>| #[trigger] stack.contains(x) ==> clear_walk(s, targets, root, x),
    ensures
        search_ancestor(s, targets, stack, visited) matches Ok(Some(a)) ==> clear_walk(s, targets, root, a),
    decreases s.objects.dom().difference(visited).len(), stack.len(),
{
    if stack.len() > 0 {
        let h = stack.last();
        let rest = stack.drop_last();
        assert forall|x: Seq<char>| #[trigger] rest.contains(x) implies clear_walk(s, targets, root, x) by {
            let i = choose|i: int| 0 <= i < rest.len() && rest[i] == x;
            assert(stack[i] == x);
            assert(stack.contains(x));
        }
        assert(stack.contains(h)) by {
            assert(stack[stack.len() - 1] == h);
        }
        if targets.contains(h) {
        } else if visited.contains(h) {
            lemma_search_clear(s, targets, root, rest, visited);
        } else {
            match parents_of(s, h) {
                Err(_) => {},
                Ok(ps) => {
                    crate::repo::law_read_object_is_addressed(s.objects, h);
                    lemma_visit_shrinks(s, visited, h);
                    let next = rest + ps;
                    assert forall|x: Seq<char>| #[trigger] next.contains(x) implies clear_walk(s, targets, root, x) by {
                        let i = choose|i: int| 0 <= i < next.len() && next[i] == x;
                        if i < rest.len() {
                            assert(rest[i] == x);
                            assert(rest.contains(x));
                        } else {
                            assert(ps[i - rest.len()] == x);
                            assert(ps.contains(x));
                            lemma_clear_step(s, targets, root, h, x);
                        }
                    }
                    lemma_search_clear(s, targets, root, next, visited.insert(h));
                },
            }
        }
    }
}

/// Whether every ancestor of `root` reads as a commit: its whole history is
/// stored.
pub open spec fn history_stored(s: StoreView, root: Seq<char>) -> bool {
    forall|a: Seq<char>| #[trigger] is_ancestor(s, a, root) ==> parents_of(s, a) is Ok
}

/// Replacing the last commit of a stack of ancestors of `root` by its
/// parents leaves a stack of ancestors of `root`.
proof fn lemma_step_stack(s: StoreView, root: Seq<char>, stack: Seq<Seq<char>>)
    requires
        stack.len() > 0,
        forall|x: Seq<char>| #[trigger] stack.contains(x) ==> is_ancestor(s, x, root),
        parents_of(s, stack.last()) is Ok,
    ensures
        ({
            let next = stack.drop_last() + parents_of(s, stack.last())->Ok_0;
            &&& forall|x: Seq<char>| #[trigger] next.contains(x) ==> is_ancestor(s, x, root)
            &&& forall|x: Seq<char>| #[trigger] stack.drop_last().contains(x) ==> is_ancestor(s, x, root)
        }),
{
    let h = stack.last();
    let rest = stack.drop_last();
    let ps = parents_of(s, h)->Ok_0;
    let next = rest + ps;
    assert(stack.contains(h)) by {
        assert(stack[stack.len() - 1] == h);
    }
    assert forall|x: Seq<char>| #[trigger] rest.contains(x) implies is_ancestor(s, x, root) by {
        let i = choose|i: int| 0 <= i < rest.len() && rest[i] == x;
        assert(stack[i] == x);
        assert(stack.contains(x));
    }
    assert forall|x: Seq<char>| #[trigger] next.contains(x) implies is_ancestor(s, x, root) by {
        let i = choose|i: int| 0 <= i < next.len() && next[i] == x;
        if i < rest.len() {
            assert(rest[i] == x);
            assert(rest.contains(x));
        } else {
            assert(ps[i - rest.len()] == x);
            assert(ps.contains(x));
            lemma_ancestor_step(s, h, root, x);
        }
    }
}

/// The collection ends without error when the stack holds only ancestors of
/// `root` and the whole history of `root` is stored.
pub proof fn lemma_collect_ok(s: StoreView, root: Seq<char>, stack: Seq<Seq<char>>, visited: Set<Seq<char>>)
    requires
        s.objects.dom().finite(),
        visited.subset_of(s.objects.dom()),
        forall|x: Seq<char>| #[trigger] stack.contains(x) ==> is_ancestor(s, x, root),
        history_stored(s, root),
    ensures
        collect_ancestors(s, stack, visited) is Ok,
    decreases s.objects.dom().difference(visited).len(), stack.len(),
{
    if stack.len() > 0 {
        let h = stack.last();
        assert(stack.contains(h)) by {
            assert(stack[stack.len() - 1] == h);
        }
        assert(parents_of(s, h) is Ok);
        lemma_step_stack(s, root, stack);
        if visited.contains(h) {
            lemma_collect_ok(s, root, stack.drop_last(), visited);
        } else {
            crate::repo::law_read_object_is_addressed(s.objects, h);
            lemma_visit_shrinks(s, visited, h);
            lemma_collect_ok(s, root, stack.drop_last() + parents_of(s, h)->Ok_0, visited.insert(h));
        }
    }
}

/// The search ends without error when the stack holds only ancestors of
/// `root` and the whole history of `root` is stored.
pub proof fn lemma_search_ok(
    s: StoreView,
    targets: Set<Seq<char>>,
    root: Seq<char>,
    stack: Seq<Seq<char>>,
    visited: Set<Seq<char>>,
)
    requires
        s.objects.dom().finite(),
        visited.subset_of(s.objects.dom()),
        forall|x: Seq<char>| #[trigger] stack.contains(x) ==> is_ancestor(s, x, root),
        history_stored(s, root),
    ensures
        search_ancestor(s, targets, stack, visited) is Ok,
    decreases s.objects.dom().difference(visited).len(), stack.len(),
{
    if stack.len() > 0 {
        let h = stack.last();
        assert(stack.contains(h)) by {
            assert(stack[stack.len() - 1] == h);
        }
        assert(parents_of(s, h) is Ok);
        lemma_step_stack(s, root, stack);
        if targets.contains(h) {
        } else if visited.contains(h) {
            lemma_search_ok(s, targets, root, stack.drop_last(), visited);
        } else {
            crate::repo::law_read_object_is_addressed(s.objects, h);
            lemma_visit_shrinks(s, visited, h);
            lemma_search_ok(s, targets, root, stack.drop_last() + parents_of(s, h)->Ok_0, visited.insert(h));
        }
    }
}

/// When the search finds nothing, the commits it visited, with `visited`
/// and the stack, make a set that holds the parents of each of its commits
/// and no target; this holds when `visited` has no target and every commit
/// of it has its parents in `visited` or on the stack.
pub proof fn lemma_search_exhausts(
    s: StoreView,
    targets: Set<Seq<char>>,
    stack: Seq<Seq<char>>,
    visited: Set<Seq<char>>,
) -> (seen: Set<Seq<char>>)
    requires
        s.objects.dom().finite(),
        visited.subset_of(s.objects.dom()),
        forall|x: Seq<char>| #[trigger] visited.contains(x) ==> !targets.contains(x),
        forall|x: Seq<char>| #[trigger] visited.contains(x) ==> parents_of(s, x) is Ok
            && forall|y: Seq<char>| parents_of(s, x)->Ok_0.contains(y) ==> visited.contains(y) || stack.contains(y),
    ensures
        search_ancestor(s, targets, stack, visited) == Ok::<Option<Seq<char>>, ErrorView>(None) ==> {
            &&& visited.subset_of(seen)
            &&& forall|x: Seq<char>| #[trigger] stack.contains(x) ==> seen.contains(x)
            &&& forall|x: Seq<char>| #[trigger] seen.contains(x) ==> !targets.contains(x)
            &&& forall|x: Seq<char>| #[trigger] seen.contains(x) ==> parents_of(s, x) is Ok
                && forall|y: Seq<char>| parents_of(s, x)->Ok_0.contains(y) ==> seen.contains(y)
        },
    decreases s.objects.dom().difference(visited).len(), stack.len(),
{
    if stack.len() == 0 {
        visited
    } else {
        let h = stack.last();
        let rest = stack.drop_last();
        assert forall|y: Seq<char>| #[trigger] stack.contains(y) && y != h implies rest.contains(y) by {
            let i = choose|i: int| 0 <= i < stack.len() && stack[i] == y;
            assert(rest[i] == y);
        }
        if targets.contains(h) {
            visited
        } else if visited.contains(h) {
            let seen = lemma_search_exhausts(s, targets, rest, visited);
            assert forall|x: Seq<char>| #[trigger] stack.contains(x) implies seen.contains(x)
                || search_ancestor(s, targets, stack, visited) != Ok::<Option<Seq<char>>, ErrorView>(None) by {
                if x != h {
                    assert(rest.contains(x));
                }
            }
            seen
        } else {
            match parents_of(s, h) {
                Err(_) => visited,
                Ok(ps) => {
                    crate::repo::law_read_object_is_addressed(s.objects, h);
                    lemma_visit_shrinks(s, visited, h);
                    let next = rest + ps;
                    let v2 = visited.insert(h);
                    assert forall|y: Seq<char>| #[trigger] rest.contains(y) implies next.contains(y) by {
                        let i = choose|i: int| 0 <= i < rest.len() && rest[i] == y;
                        assert(next[i] == y);
                    }
                    assert forall|y: Seq<char>| #[trigger] ps.contains(y) implies next.contains(y) by {
                        let i = choose|i: int| 0 <= i < ps.len() && ps[i] == y;
                        assert(next[rest.len() + i] == y);
                    }
                    assert forall|x: Seq<char>| #[trigger] v2.contains(x) implies parents_of(s, x) is Ok
                        && forall|y: Seq<char>| parents_of(s, x)->Ok_0.contains(y) ==> v2.contains(y) || next.contains(y) by {
                        if x != h {
                            assert forall|y: Seq<char>| parents_of(s, x)->Ok_0.contains(y) implies v2.contains(y) || next.contains(y) by {
                                if !visited.contains(y) && y != h {
                                    assert(stack.contains(y));
                                    assert(rest.contains(y));
                                }
                            }
                        }
                    }
                    let seen = lemma_search_exhausts(s, targets, next, v2);
                    assert forall|x: Seq<char>| #[trigger] stack.contains(x) implies seen.contains(x)
                        || search_ancestor(s, targets, stack, visited) != Ok::<Option<Seq<char>>, ErrorView>(None) by {
                        if x != h {
                            assert(rest.contains(x));
                            assert(next.contains(x));
                        } else {
                            assert(v2.contains(h));
                        }
                    }
                    seen
                },
            }
        }
    }
}

impl Repository {
    /// The parents of commit `commit_hash`.
    pub fn parents_of_commit(&self, commit_hash: &str) -> (r: Result<Vec<ObjectHash>, RepoError>)
        ensures
            match r {
                Ok(v) => parents_of(self.store@, commit_hash@) == Ok::<Seq<Seq<char>>, ErrorView>(crate::json::string_views(v@)),
                Err(e) => parents_of(self.store@, commit_hash@) == Err::<Seq<Seq<char>>, ErrorView>(e@),
            },
    {
        match self.read_object(commit_hash) {
            Err(e) => Err(e),
            Ok(Object::Commit(c)) => Ok(c.parents),
            Ok(_) => Err(RepoError::ExpectedCommit),
        }
    }

    /// The commits from the one `HEAD` stands at, along first parents, newest first.
    pub fn log(&self) -> (r: Result<Vec<(ObjectHash, Commit)>, RepoError>)
        ensures
            match r {
                Ok(v) => spec_log(self.store@) == Ok::<Seq<(Seq<char>, CommitView)>, ErrorView>(log_view(v@)),
                Err(e) => spec_log(self.store@) == Err::<Seq<(Seq<char>, CommitView)>, ErrorView>(e@),
            },
    {
        let mut commits: Vec<(ObjectHash, Commit)> = Vec::new();
        let mut current = match self.head_commit() {
            Ok(h) => h,
            Err(e) => return Err(e),
        };
        let ghost s = self.store@;
        let mut fuel: usize = self.store.objects.len();
        loop
            invariant
                s == self.store@,
                spec_log(s) == match first_parent_chain(s, opt_string_view(current), fuel as nat) {
                    Err(e) => Err(e),
                    Ok(rest) => Ok(log_view(commits@) + rest),
                },
            decreases fuel,
        {
            let hash = match current {
                None => {
                    assert(log_view(commits@) + Seq::<(Seq<char>, CommitView)>::empty() =~= log_view(commits@));
                    return Ok(commits);
                },
                Some(h) => h,
            };
            if fuel == 0 {
                return Err(RepoError::CorruptedObject(hash));
            }
            match self.read_object(hash.as_str()) {
                Err(e) => return Err(e),
                Ok(Object::Commit(commit)) => {
                    current = if commit.parents.len() > 0 {
                        Some(commit.parents[0].clone())
                    } else {
                        None
                    };
                    assert(opt_string_view(current) == first_parent(commit@.parents));
                    let ghost before = log_view(commits@);
                    commits.push((hash, commit));
                    assert(log_view(commits@) =~= before.push((hash@, commit@)));
                    proof {
                        let rest = first_parent_chain(s, opt_string_view(current), (fuel - 1) as nat);
                        if rest is Ok {
                            assert(before + (seq![(hash@, commit@)] + rest->Ok_0) =~= log_view(commits@) + rest->Ok_0);
                        }
                    }
                    fuel = fuel - 1;
                },
                Ok(_) => return Err(RepoError::ExpectedCommit),
            }
        }
    }
}


/// The views of a stack of commit names.
pub open spec fn stack_view(v: Seq<String>) -> Seq<Seq<char>> {
    crate::json::string_views(v)
}

/// Pushes `more` onto the stack, in order.
fn push_all(stack: &mut Vec<String>, more: Vec<String>)
    ensures
        stack_view(final(stack)@) == stack_view(old(stack)@) + stack_view(more@),
{
    let ghost start = stack_view(stack@);
    let mut i: usize = 0;
    while i < more.len()
        invariant
            i <= more@.len(),
            stack_view(stack@) == start + stack_view(more@).take(i as int),
        decreases more.len() - i,
    {
        let ghost before = stack_view(stack@);
        stack.push(more[i].clone());
        assert(stack_view(stack@) =~= before.push(more@[i as int]@));
        i = i + 1;
        assert(stack_view(stack@) =~= start + stack_view(more@).take(i as int));
    }
    assert(stack_view(more@).take(i as int) =~= stack_view(more@));
}

impl Repository {
    /// Finds a commit that both `left_hash` and `right_hash` descend from:
    /// the first ancestor of `right_hash`, depth first, that is an ancestor
    /// of `left_hash`.
    pub fn find_common_ancestor(&self, left_hash: &str, right_hash: &str) -> (r: Result<Option<ObjectHash>, RepoError>)
        ensures
            match r {
                Ok(o) => spec_find_common_ancestor(self.store@, left_hash@, right_hash@)
                    == Ok::<Option<Seq<char>>, ErrorView>(opt_string_view(o)),
                Err(e) => spec_find_common_ancestor(self.store@, left_hash@, right_hash@)
                    == Err::<Option<Seq<char>>, ErrorView>(e@),
            },
    {
        let ghost s = self.store@;
        proof {
            use_type_invariant(&self.store.objects);
            self.store.objects.lemma_wf();
        }
        let mut left_ancestors: PathMap<()> = PathMap::new();
        let mut stack: Vec<String> = Vec::new();
        stack.push(String::from_str(left_hash));
        assert(stack_view(stack@) =~= seq![left_hash@]);
        assert(left_ancestors@.dom() =~= Set::<Seq<char>>::empty());
        while stack.len() > 0
            invariant
                s == self.store@,
                s.objects.dom().finite(),
                left_ancestors@.dom().subset_of(s.objects.dom()),
                collect_ancestors(s, seq![left_hash@], Set::empty())
                    == collect_ancestors(s, stack_view(stack@), left_ancestors@.dom()),
            decreases s.objects.dom().difference(left_ancestors@.dom()).len(), stack@.len(),
        {
            let ghost before = stack_view(stack@);
            let hash = stack.pop().unwrap();
            assert(stack_view(stack@) =~= before.drop_last());
            assert(hash@ == before.last());
            if !left_ancestors.contains_key(hash.as_str()) {
                let parents = match self.parents_of_commit(hash.as_str()) {
                    Ok(p) => p,
                    Err(e) => return Err(e),
                };
                proof {
                    crate::repo::law_read_object_is_addressed(s.objects, hash@);
                    lemma_visit_shrinks(s, left_ancestors@.dom(), hash@);
                }
                left_ancestors.insert(hash, ());
                push_all(&mut stack, parents);
            }
        }
        let ghost anc = left_ancestors@.dom();
        assert(collect_ancestors(s, seq![left_hash@], Set::empty()) == Ok::<Set<Seq<char>>, ErrorView>(anc));
        let mut visited: PathMap<()> = PathMap::new();
        let mut to_visit: Vec<String> = Vec::new();
        to_visit.push(String::from_str(right_hash));
        assert(stack_view(to_visit@) =~= seq![right_hash@]);
        assert(visited@.dom() =~= Set::<Seq<char>>::empty());
        while to_visit.len() > 0
            invariant
                s == self.store@,
                s.objects.dom().finite(),
                anc == left_ancestors@.dom(),
                visited@.dom().subset_of(s.objects.dom()),
                spec_find_common_ancestor(s, left_hash@, right_hash@)
                    == search_ancestor(s, anc, stack_view(to_visit@), visited@.dom()),
            decreases s.objects.dom().difference(visited@.dom()).len(), to_visit@.len(),
        {
            let ghost before = stack_view(to_visit@);
            let hash = to_visit.pop().unwrap();
            assert(stack_view(to_visit@) =~= before.drop_last());
            assert(hash@ == before.last());
            if left_ancestors.contains_key(hash.as_str()) {
                return Ok(Some(hash));
            }
            if !visited.contains_key(hash.as_str()) {
                let parents = match self.parents_of_commit(hash.as_str()) {
                    Ok(p) => p,
                    Err(e) => return Err(e),
                };
                proof {
                    crate::repo::law_read_object_is_addressed(s.objects, hash@);
                    lemma_visit_shrinks(s, visited@.dom(), hash@);
                }
                visited.insert(hash, ());
                push_all(&mut to_visit, parents);
            }
        }
        Ok(None)
    }
}
} // verus!
