//! Paths inside the working tree, as the repository records them: which
//! paths are safe to read and write, and their successive parent
//! directories.

use vstd::prelude::*;

verus! {

/// The pieces of `s` between the `/` separators (an empty piece where two
/// separators meet or at either end).
pub open spec fn split_slash(s: Seq<char>) -> Seq<Seq<char>>
    decreases s.len(),
{
    if s.len() == 0 {
        seq![Seq::empty()]
    } else {
        let p = split_slash(s.drop_last());
        if s.last() == '/' {
            p.push(Seq::empty())
        } else {
            p.update(p.len() - 1, p.last().push(s.last()))
        }
    }
}

/// The path names a file inside the working tree, outside `.minigit`: it is
/// not empty, not absolute, does not start with `.` or `.minigit`, and has no
/// `..` piece. These are the paths whose components are all plain names.
pub open spec fn safe_path(s: Seq<char>) -> bool {
    let pieces = split_slash(s);
    &&& s.len() > 0
    &&& s[0] != '/'
    &&& pieces[0] != seq!['.']
    &&& pieces[0] != seq!['.', 'm', 'i', 'n', 'i', 'g', 'i', 't']
    &&& forall|i: int| 0 <= i < pieces.len() ==> #[trigger] pieces[i] != seq!['.', '.']
}

/// A piece that names a component: not empty and not `.`.
pub open spec fn is_component(p: Seq<char>) -> bool {
    p.len() > 0 && p != seq!['.']
}

/// The names a path is made of: its pieces, leaving out empty pieces and `.`.
pub open spec fn components(s: Seq<char>) -> Seq<Seq<char>> {
    split_slash(s).filter(component_pred())
}

/// [`is_component`] as a predicate value.
pub open spec fn component_pred() -> spec_fn(Seq<char>) -> bool {
    |p: Seq<char>| is_component(p)
}

/// Some leading part of the path (its first components, joined by `/`) is
/// one of the symbolic links.
pub open spec fn through_symlink(symlinks: Seq<Seq<char>>, s: Seq<char>) -> bool {
    exists|i: int| 1 <= i <= components(s).len() && #[trigger] symlinks.contains(join_slash(components(s).take(i)))
}

/// Names joined by `/`.
pub open spec fn join_slash(names: Seq<Seq<char>>) -> Seq<char>
    decreases names.len(),
{
    if names.len() == 0 {
        Seq::empty()
    } else if names.len() == 1 {
        names[0]
    } else {
        join_slash(names.drop_last()) + seq!['/'] + names.last()
    }
}

/// A path always has at least one piece.
pub proof fn lemma_split_slash_len(s: Seq<char>)
    ensures
        split_slash(s).len() >= 1,
    decreases s.len(),
{
    if s.len() > 0 {
        lemma_split_slash_len(s.drop_last());
    }
}

/// The pieces of `s` between separators.
pub fn split_path(s: &str) -> (r: Vec<Vec<char>>)
    ensures
        r@.map_values(|v: Vec<char>| v@) == split_slash(s@),
        r@.len() >= 1,
{
    let n = s.unicode_len();
    let mut pieces: Vec<Vec<char>> = Vec::new();
    let mut cur: Vec<char> = Vec::new();
    let mut i: usize = 0;
    assert(s@.take(0) =~= Seq::<char>::empty());
    while i < n
        invariant
            n == s@.len(),
            i <= n,
            pieces@.map_values(|v: Vec<char>| v@).push(cur@) == split_slash(s@.take(i as int)),
        decreases n - i,
    {
        let c = s.get_char(i);
        let ghost before = pieces@.map_values(|v: Vec<char>| v@);
        proof {
            lemma_split_slash_len(s@.take(i as int));
            assert(s@.take(i + 1).drop_last() =~= s@.take(i as int));
        }
        if c == '/' {
            let done = cur;
            pieces.push(done);
            cur = Vec::new();
            assert(pieces@.map_values(|v: Vec<char>| v@) =~= before.push(done@));
            assert(pieces@.map_values(|v: Vec<char>| v@).push(cur@) =~= split_slash(s@.take(i + 1)));
        } else {
            let ghost old_cur = cur@;
            cur.push(c);
            assert(before.push(cur@) =~= before.push(old_cur).update(before.len() as int, old_cur.push(c)));
        }
        i = i + 1;
    }
    assert(s@.take(n as int) =~= s@);
    let ghost before = pieces@.map_values(|v: Vec<char>| v@);
    pieces.push(cur);
    assert(pieces@.map_values(|v: Vec<char>| v@) =~= before.push(cur@));
    pieces
}

/// Whether the characters spell `lit`.
pub(crate) fn chars_eq(v: &Vec<char>, lit: &str) -> (r: bool)
    ensures
        r == (v@ == lit@),
{
    let n = lit.unicode_len();
    if v.len() != n {
        return false;
    }
    let mut i: usize = 0;
    while i < n
        invariant
            n == lit@.len(),
            n == v@.len(),
            i <= n,
            forall|j: int| 0 <= j < i ==> v@[j] == lit@[j],
        decreases n - i,
    {
        if v[i] != lit.get_char(i) {
            return false;
        }
        i = i + 1;
    }
    assert(v@ =~= lit@);
    true
}

/// Whether `s` is a safe path inside the working tree.
pub fn is_safe_path(s: &str) -> (r: bool)
    ensures
        r == safe_path(s@),
{
    proof {
        reveal_strlit(".");
        reveal_strlit("..");
        reveal_strlit(".minigit");
        assert("."@ =~= seq!['.']);
        assert(".."@ =~= seq!['.', '.']);
        assert(".minigit"@ =~= seq!['.', 'm', 'i', 'n', 'i', 'g', 'i', 't']);
    }
    if s.unicode_len() == 0 {
        return false;
    }
    if s.get_char(0) == '/' {
        return false;
    }
    let pieces = split_path(s);
    let ghost views = pieces@.map_values(|v: Vec<char>| v@);
    assert(views[0] == pieces@[0]@);
    if chars_eq(&pieces[0], ".") || chars_eq(&pieces[0], ".minigit") {
        return false;
    }
    let mut i: usize = 0;
    while i < pieces.len()
        invariant
            views == pieces@.map_values(|v: Vec<char>| v@),
            views == split_slash(s@),
            i <= pieces@.len(),
            forall|j: int| 0 <= j < i ==> #[trigger] views[j] != seq!['.', '.'],
        decreases pieces.len() - i,
    {
        proof {
            reveal_strlit("..");
            assert(".."@ =~= seq!['.', '.']);
        }
        assert(views[i as int] == pieces@[i as int]@);
        if chars_eq(&pieces[i], "..") {
            assert(views[i as int] == seq!['.', '.']);
            assert(split_slash(s@)[i as int] == seq!['.', '.']);
            return false;
        }
        i = i + 1;
    }
    true
}


/// Whether the piece names a component.
fn is_component_exec(p: &Vec<char>) -> (r: bool)
    ensures
        r == is_component(p@),
{
    if p.len() == 1 && p[0] == '.' {
        assert(p@ =~= seq!['.']);
        return false;
    }
    p.len() > 0
}

/// Appends `more`.
fn append_chars(out: &mut Vec<char>, more: &Vec<char>)
    ensures
        final(out)@ == old(out)@ + more@,
{
    let ghost start = out@;
    let mut i: usize = 0;
    while i < more.len()
        invariant
            i <= more@.len(),
            out@ == start + more@.take(i as int),
        decreases more.len() - i,
    {
        out.push(more[i]);
        i = i + 1;
        assert(out@ =~= start + more@.take(i as int));
    }
    assert(more@.take(i as int) =~= more@);
}

/// Whether the characters spell one of the strings of `list`.
fn listed(v: &Vec<char>, list: &Vec<String>) -> (r: bool)
    ensures
        r == list@.map_values(|s: String| s@).contains(v@),
{
    let ghost views = list@.map_values(|s: String| s@);
    let mut i: usize = 0;
    while i < list.len()
        invariant
            views == list@.map_values(|s: String| s@),
            i <= list@.len(),
            forall|j: int| 0 <= j < i ==> #[trigger] views[j] != v@,
        decreases list.len() - i,
    {
        if chars_eq(v, list[i].as_str()) {
            assert(views[i as int] == v@);
            return true;
        }
        i = i + 1;
    }
    false
}

/// The names `path` is made of, as [`components`] gives them.
fn path_components(path: &str) -> (r: Vec<Vec<char>>)
    ensures
        r@.map_values(|v: Vec<char>| v@) == components(path@),
{
    let pieces = split_path(path);
    let ghost pv = pieces@.map_values(|v: Vec<char>| v@);
    let mut comps: Vec<Vec<char>> = Vec::new();
    let mut i: usize = 0;
    assert(pv.take(0) =~= Seq::<Seq<char>>::empty());
    proof {
        reveal_with_fuel(Seq::<_>::filter, 1);
    }
    while i < pieces.len()
        invariant
            pv == pieces@.map_values(|v: Vec<char>| v@),
            pv == split_slash(path@),
            i <= pieces@.len(),
            comps@.map_values(|v: Vec<char>| v@) == pv.take(i as int).filter(component_pred()),
        decreases pieces.len() - i,
    {
        let ghost before = comps@.map_values(|v: Vec<char>| v@);
        proof {
            reveal_with_fuel(Seq::<_>::filter, 1);
        }
        assert(pv.take(i + 1).drop_last() =~= pv.take(i as int));
        assert(pv.take(i + 1).last() == pv[i as int]);
        assert(pv[i as int] == pieces@[i as int]@);
        if is_component_exec(&pieces[i]) {
            let mut c: Vec<char> = Vec::new();
            append_chars(&mut c, &pieces[i]);
            comps.push(c);
            assert(comps@.map_values(|v: Vec<char>| v@) =~= before.push(pv[i as int]));
            assert(component_pred()(pv[i as int]));
            assert(pv.take(i + 1).filter(component_pred()) == pv.take(i as int).filter(component_pred()).push(pv[i as int]));
        } else {
            assert(!component_pred()(pv[i as int]));
            assert(pv.take(i + 1).filter(component_pred()) == pv.take(i as int).filter(component_pred()));
        }
        i = i + 1;
    }
    assert(pv.take(i as int) =~= pv);
    comps
}

/// The key under which the working tree's walk lists the regular file that
/// `path` names: its names joined by single separators. There is none for
/// an empty or absolute path, nor for one whose last piece names no file
/// (a trailing `/` or `.`).
pub open spec fn file_key(path: Seq<char>) -> Option<Seq<char>> {
    if path.len() > 0 && path[0] != '/' && is_component(split_slash(path).last()) {
        Some(join_slash(components(path)))
    } else {
        None
    }
}

/// The names joined by `/`.
fn join_names(names: &Vec<Vec<char>>) -> (r: Vec<char>)
    ensures
        r@ == join_slash(names@.map_values(|v: Vec<char>| v@)),
{
    let ghost nv = names@.map_values(|v: Vec<char>| v@);
    let mut out: Vec<char> = Vec::new();
    let mut k: usize = 0;
    assert(nv.take(0) =~= Seq::<Seq<char>>::empty());
    while k < names.len()
        invariant
            nv == names@.map_values(|v: Vec<char>| v@),
            k <= names@.len(),
            out@ == join_slash(nv.take(k as int)),
        decreases names.len() - k,
    {
        if k > 0 {
            out.push('/');
        }
        append_chars(&mut out, &names[k]);
        proof {
            assert(nv.take(k + 1).drop_last() =~= nv.take(k as int));
            assert(nv.take(k + 1).last() == nv[k as int]);
            assert(nv[k as int] == names@[k as int]@);
            if k == 0 {
                assert(nv.take(1).len() == 1);
                assert(out@ =~= join_slash(nv.take(1)));
            } else {
                assert(out@ =~= join_slash(nv.take(k + 1)));
            }
        }
        k = k + 1;
    }
    assert(nv.take(k as int) =~= nv);
    out
}

/// The key of the regular file that `path` names, as [`file_key`] gives it.
pub fn normal_key(path: &str) -> (r: Option<Vec<char>>)
    ensures
        r matches Some(k) ==> file_key(path@) == Some(k@),
        r is None ==> file_key(path@) is None,
{
    if path.unicode_len() == 0 || path.get_char(0) == '/' {
        return None;
    }
    let pieces = split_path(path);
    let ghost pv = pieces@.map_values(|v: Vec<char>| v@);
    let last = pieces.len() - 1;
    assert(pv.last() == pieces@[last as int]@);
    if !is_component_exec(&pieces[last]) {
        return None;
    }
    let comps = path_components(path);
    Some(join_names(&comps))
}

/// Whether the path leads through one of the symbolic links.
pub fn leads_through_symlink(path: &str, symlinks: &Vec<String>) -> (r: bool)
    ensures
        r == through_symlink(symlinks@.map_values(|s: String| s@), path@),
{
    let ghost links = symlinks@.map_values(|s: String| s@);
    let comps = path_components(path);
    let ghost cv = comps@.map_values(|v: Vec<char>| v@);
    let mut prefix: Vec<char> = Vec::new();
    let mut k: usize = 0;
    while k < comps.len()
        invariant
            cv == comps@.map_values(|v: Vec<char>| v@),
            cv == components(path@),
            links == symlinks@.map_values(|s: String| s@),
            k <= comps@.len(),
            k > 0 ==> prefix@ == join_slash(cv.take(k as int)),
            k == 0 ==> prefix@.len() == 0,
            forall|j: int| 1 <= j <= k ==> !#[trigger] links.contains(join_slash(cv.take(j))),
        decreases comps.len() - k,
    {
        if k > 0 {
            prefix.push('/');
        }
        append_chars(&mut prefix, &comps[k]);
        proof {
            assert(cv.take(k + 1).drop_last() =~= cv.take(k as int));
            assert(cv.take(k + 1).last() == cv[k as int]);
            if k == 0 {
                assert(cv.take(1).len() == 1);
                assert(cv.take(1)[0] == cv[0]);
                assert(cv[0] == comps@[0]@);
                assert(prefix@ =~= join_slash(cv.take(1)));
            } else {
                assert(prefix@ =~= join_slash(cv.take(k + 1)));
            }
        }
        if listed(&prefix, symlinks) {
            assert(links.contains(join_slash(cv.take(k + 1))));
            return true;
        }
        k = k + 1;
    }
    false
}
} // verus!
