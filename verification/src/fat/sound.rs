//! What holds of every tree that files were arranged in.

use vstd::prelude::*;

use super::plan;
use super::tree;
use crate::fat16;
use crate::text;

verus! {

/// Whether `n` is what some 8.3 name is stored as.
pub open spec fn good_name(n: Seq<u8>) -> bool {
    exists|c: Seq<char>| fat16::stored(c) == Some(n)
}

/// What holds of every arrangement of files: it is a tree, nothing stands in it twice, nothing
/// is a file and a directory at once, and every file lies in one of its directories.
pub open spec fn well_planted(t: tree::Tree) -> bool {
    &&& plan::tree_sound(t)
    &&& forall|k: int| 0 < k < t.dirs.len() ==> good_name((#[trigger] t.dirs[k]).last())
    &&& forall|j: int| 0 <= j < t.files.len() ==> good_name((#[trigger] t.files[j]).name)
    &&& forall|i: int, k: int| 0 <= i < k < t.dirs.len() ==> #[trigger] t.dirs[i] != #[trigger] t.dirs[k]
    &&& forall|i: int, j: int|
        0 <= i < j < t.files.len() ==> !((#[trigger] t.files[i]).dir == (#[trigger] t.files[j]).dir
            && t.files[i].name == t.files[j].name)
    &&& forall|j: int| 0 <= j < t.files.len() ==> t.dirs.contains((#[trigger] t.files[j]).dir)
    &&& forall|j: int|
        0 <= j < t.files.len() ==> !t.dirs.contains((#[trigger] t.files[j]).dir.push(t.files[j].name))
}

proof fn dir_slot_bounds(dirs: Seq<Seq<Seq<u8>>>, d: Seq<Seq<u8>>, i: int)
    requires
        0 <= i <= dirs.len(),
    ensures
        i <= tree::dir_slot(dirs, d, i) <= dirs.len(),
    decreases dirs.len() - i,
{
    if i < dirs.len() && tree::path_less(dirs[i], d, 0) {
        dir_slot_bounds(dirs, d, i + 1);
    }
}

proof fn file_slot_bounds(files: Seq<tree::Leaf>, d: Seq<Seq<u8>>, n: Seq<u8>, i: int)
    requires
        0 <= i <= files.len(),
    ensures
        i <= tree::file_slot(files, d, n, i) <= files.len(),
    decreases files.len() - i,
{
    if i < files.len() && tree::leaf_less(files[i], d, n) {
        file_slot_bounds(files, d, n, i + 1);
    }
}

/// What an insertion leaves, and what it adds.
pub(crate) proof fn insert_keeps<A>(s: Seq<A>, p: int, a: A)
    requires
        0 <= p <= s.len(),
    ensures
        s.insert(p, a).len() == s.len() + 1,
        forall|i: int| 0 <= i < p ==> s.insert(p, a)[i] == s[i],
        s.insert(p, a)[p] == a,
        forall|i: int| p < i <= s.len() ==> s.insert(p, a)[i] == s[i - 1],
        forall|x: A| s.insert(p, a).contains(x) <==> s.contains(x) || x == a,
{
    let n = s.insert(p, a);
    assert forall|x: A| n.contains(x) <==> s.contains(x) || x == a by {
        if n.contains(x) {
            let i = choose|i: int| 0 <= i < n.len() && n[i] == x;
            if i < p {
                assert(s[i] == x);
            } else if i > p {
                assert(s[i - 1] == x);
            }
        }
        if s.contains(x) {
            let i = choose|i: int| 0 <= i < s.len() && s[i] == x;
            if i < p {
                assert(n[i] == x);
            } else {
                assert(n[i + 1] == x);
            }
        }
        if x == a {
            assert(n[p] == x);
        }
    }
}

proof fn with_dir_is_planted(t: tree::Tree, dir: Seq<Seq<u8>>, n: Seq<u8>)
    requires
        well_planted(t),
        t.dirs.contains(dir),
        good_name(n),
        n.len() == 11,
        !tree::has_file(t, dir, n),
    ensures
        well_planted(tree::with_dir(t, dir.push(n))),
        tree::with_dir(t, dir.push(n)).dirs.contains(dir.push(n)),
{
    let d = dir.push(n);
    let r = tree::with_dir(t, d);
    if !t.dirs.contains(d) {
        let p = tree::dir_slot(t.dirs, d, 0);
        assert(tree::path_less(t.dirs[0], d, 0));
        dir_slot_bounds(t.dirs, d, 1);
        insert_keeps(t.dirs, p, d);
        assert(d.drop_last() =~= dir);
        assert(d.last() == n);
        assert(r.dirs[p] == d);
        assert forall|k: int| 0 < k < r.dirs.len() implies (#[trigger] r.dirs[k]).len() > 0 && r.dirs.contains(
            r.dirs[k].drop_last(),
        ) && r.dirs[k].last().len() == 11 && good_name(r.dirs[k].last()) by {
            if k < p {
                assert(r.dirs[k] == t.dirs[k]);
            } else if k > p {
                assert(r.dirs[k] == t.dirs[k - 1]);
            }
        }
        assert forall|i: int, k: int| 0 <= i < k < r.dirs.len() implies #[trigger] r.dirs[i] != #[trigger] r.dirs[k] by {
            let i0 = if i < p {
                i
            } else {
                i - 1
            };
            let k0 = if k < p {
                k
            } else {
                k - 1
            };
            if i == p {
                assert(t.dirs.contains(t.dirs[k0]));
            } else if k == p {
                assert(t.dirs.contains(t.dirs[i0]));
            } else {
                assert(t.dirs[i0] != t.dirs[k0]);
            }
        }
        assert forall|j: int| 0 <= j < r.files.len() implies !r.dirs.contains(
            (#[trigger] r.files[j]).dir.push(r.files[j].name),
        ) by {
            let l = t.files[j];
            assert(!t.dirs.contains(l.dir.push(l.name)));
            if l.dir.push(l.name) == d {
                assert(l.dir.push(l.name).drop_last() =~= l.dir);
                assert(l.dir.push(l.name).last() == l.name);
                assert(d.drop_last() =~= dir);
                assert(d.last() == n);
                assert(tree::has_file(t, dir, n));
            }
        }
    }
}

proof fn with_file_is_planted(t: tree::Tree, l: tree::Leaf)
    requires
        well_planted(t),
        t.dirs.contains(l.dir),
        good_name(l.name),
        l.name.len() == 11,
        !tree::has_file(t, l.dir, l.name),
        !t.dirs.contains(l.dir.push(l.name)),
    ensures
        well_planted(tree::with_file(t, l)),
{
    let r = tree::with_file(t, l);
    let p = tree::file_slot(t.files, l.dir, l.name, 0);
    file_slot_bounds(t.files, l.dir, l.name, 0);
    insert_keeps(t.files, p, l);
    assert forall|j: int| 0 <= j < r.files.len() implies good_name((#[trigger] r.files[j]).name)
        && r.files[j].name.len() == 11 && r.dirs.contains(r.files[j].dir) && !r.dirs.contains(
        r.files[j].dir.push(r.files[j].name),
    ) by {
        if j < p {
            assert(r.files[j] == t.files[j]);
        } else if j > p {
            assert(r.files[j] == t.files[j - 1]);
        }
    }
    assert forall|i: int, j: int| 0 <= i < j < r.files.len() implies !((#[trigger] r.files[i]).dir == (
    #[trigger] r.files[j]).dir && r.files[i].name == r.files[j].name) by {
        let i0 = if i < p {
            i
        } else {
            i - 1
        };
        let j0 = if j < p {
            j
        } else {
            j - 1
        };
        if i == p {
            assert(!(t.files[j0].dir == l.dir && t.files[j0].name == l.name));
        } else if j == p {
            assert(!(t.files[i0].dir == l.dir && t.files[i0].name == l.name));
        } else {
            assert(!(t.files[i0].dir == t.files[j0].dir && t.files[i0].name == t.files[j0].name));
        }
    }
}

proof fn stored_is_11(c: Seq<char>)
    requires
        fat16::stored(c) is Some,
    ensures
        fat16::stored(c)->0.len() == 11,
        good_name(fat16::stored(c)->0),
{
    assert(fat16::stored(c) == Some(fat16::stored(c)->0));
}

/// The names that the first `i` components of a path are stored as.
pub open spec fn stored_path(comps: Seq<Seq<char>>, i: nat) -> Seq<Seq<u8>> {
    Seq::new(i, |k: int| fat16::stored(comps[k])->0)
}

/// What is in a tree with one file more: what was in it, and that file.
pub(crate) proof fn grown_is_planted(
    t: tree::Tree,
    f: tree::Item,
    what: Seq<char>,
    comps: Seq<Seq<char>>,
    i: int,
    dir: Seq<Seq<u8>>,
)
    requires
        well_planted(t),
        t.dirs.contains(dir),
        0 <= i < comps.len(),
        dir == stored_path(comps, i as nat),
        tree::grown(t, f, what, comps, i, dir) is Ok,
    ensures
        ({
            let r = tree::grown(t, f, what, comps, i, dir)->Ok_0;
            let last = (comps.len() - 1) as nat;
            &&& well_planted(r)
            &&& forall|l: tree::Leaf| t.files.contains(l) ==> #[trigger] r.files.contains(l)
            &&& r.files.contains(
                tree::Leaf { dir: stored_path(comps, last), name: fat16::stored(comps[last as int])->0, data: f.data },
            )
            &&& forall|k: int| i <= k < comps.len() ==> fat16::stored(#[trigger] comps[k]) is Some
            &&& r.files.len() == t.files.len() + 1
        }),
    decreases comps.len() - i,
{
    let n = fat16::stored(comps[i])->0;
    stored_is_11(comps[i]);
    if i + 1 == comps.len() {
        let l = tree::Leaf { dir, name: n, data: f.data };
        with_file_is_planted(t, l);
        let p = tree::file_slot(t.files, dir, n, 0);
        file_slot_bounds(t.files, dir, n, 0);
        insert_keeps(t.files, p, l);
    } else {
        with_dir_is_planted(t, dir, n);
        assert(dir.push(n) =~= stored_path(comps, (i + 1) as nat));
        grown_is_planted(tree::with_dir(t, dir.push(n)), f, what, comps, i + 1, dir.push(n));
    }
}

pub(crate) proof fn pieces_are_some(s: Seq<char>, sep: char, i: int)
    ensures
        text::pieces(s, sep, i).len() > 0,
{
}

/// The directory and the name that a path leads to.
pub open spec fn leaf_of(f: tree::Item) -> tree::Leaf {
    let comps = text::pieces(f.path, '/', 0);
    let last = (comps.len() - 1) as nat;
    tree::Leaf { dir: stored_path(comps, last), name: fat16::stored(comps[last as int])->0, data: f.data }
}

/// Every file is in the tree that files are arranged in, under its own name, and nothing else.
pub(crate) proof fn every_file_is_planted(files: Seq<tree::Item>, what: Seq<char>, k: nat)
    requires
        k <= files.len(),
        tree::planted(files, what, k) is Ok,
    ensures
        well_planted(tree::planted(files, what, k)->Ok_0),
        forall|i: int|
            0 <= i < k ==> tree::planted(files, what, k)->Ok_0.files.contains(leaf_of(#[trigger] files[i])),
        tree::planted(files, what, k)->Ok_0.files.len() == k,
        forall|i: int, c: int|
            0 <= i < k && 0 <= c < text::pieces(files[i].path, '/', 0).len() ==> fat16::stored(
                #[trigger] text::pieces(files[i].path, '/', 0)[c],
            ) is Some,
    decreases k,
{
    if k > 0 {
        every_file_is_planted(files, what, (k - 1) as nat);
        let t = tree::planted(files, what, (k - 1) as nat)->Ok_0;
        let r = tree::planted(files, what, k)->Ok_0;
        let f = files[k - 1];
        let comps = text::pieces(f.path, '/', 0);
        pieces_are_some(f.path, '/', 0);
        assert(stored_path(comps, 0) =~= seq![]);
        assert(t.dirs[0] =~= seq![]);
        assert(t.dirs.contains(Seq::<Seq<u8>>::empty()));
        grown_is_planted(t, f, what, comps, 0, seq![]);
        assert forall|i: int| 0 <= i < k implies r.files.contains(leaf_of(#[trigger] files[i])) by {
            if i < k - 1 {
                assert(t.files.contains(leaf_of(files[i])));
            }
        }
    } else {
        let t = tree::bare();
        assert(t.dirs[0] == Seq::<Seq<u8>>::empty());
    }
}

proof fn grown_is_shallow(
    t: tree::Tree,
    f: tree::Item,
    what: Seq<char>,
    comps: Seq<Seq<char>>,
    i: int,
    dir: Seq<Seq<u8>>,
    n: nat,
)
    requires
        forall|d: int| 0 <= d < t.dirs.len() ==> (#[trigger] t.dirs[d]).len() <= n,
        comps.len() <= n + 1,
        0 <= i < comps.len(),
        dir.len() == i,
        tree::grown(t, f, what, comps, i, dir) is Ok,
    ensures
        forall|d: int|
            0 <= d < tree::grown(t, f, what, comps, i, dir)->Ok_0.dirs.len() ==> (#[trigger] tree::grown(
                t,
                f,
                what,
                comps,
                i,
                dir,
            )->Ok_0.dirs[d]).len() <= n,
    decreases comps.len() - i,
{
    if i + 1 < comps.len() {
        let next = dir.push(fat16::stored(comps[i])->0);
        let r = tree::with_dir(t, next);
        if !t.dirs.contains(next) {
            let p = tree::dir_slot(t.dirs, next, 0);
            dir_slot_bounds(t.dirs, next, 0);
            insert_keeps(t.dirs, p, next);
            assert forall|d: int| 0 <= d < r.dirs.len() implies (#[trigger] r.dirs[d]).len() <= n by {
                if d < p {
                    assert(r.dirs[d] == t.dirs[d]);
                } else if d > p {
                    assert(r.dirs[d] == t.dirs[d - 1]);
                }
            }
        }
        grown_is_shallow(r, f, what, comps, i + 1, next, n);
    }
}

/// Directories are nested no deeper than the paths say.
pub(crate) proof fn planted_is_shallow(files: Seq<tree::Item>, what: Seq<char>, k: nat, n: nat)
    requires
        k <= files.len(),
        tree::planted(files, what, k) is Ok,
        forall|i: int| 0 <= i < files.len() ==> text::pieces((#[trigger] files[i]).path, '/', 0).len() <= n + 1,
    ensures
        forall|d: int|
            0 <= d < tree::planted(files, what, k)->Ok_0.dirs.len() ==> (#[trigger] tree::planted(
                files,
                what,
                k,
            )->Ok_0.dirs[d]).len() <= n,
    decreases k,
{
    if k > 0 {
        planted_is_shallow(files, what, (k - 1) as nat, n);
        let t = tree::planted(files, what, (k - 1) as nat)->Ok_0;
        let f = files[k - 1];
        pieces_are_some(f.path, '/', 0);
        grown_is_shallow(t, f, what, text::pieces(f.path, '/', 0), 0, seq![], n);
    }
}

} // verus!
