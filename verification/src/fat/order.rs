//! Files are arranged by name, in whatever order they were given.

use vstd::prelude::*;

use super::sound;
use super::tree;
use crate::fat16;
use crate::text;

verus! {

/// Whether every element of a list comes before those behind it.
pub open spec fn sorted<A>(s: Seq<A>, less: spec_fn(A, A) -> bool) -> bool {
    forall|i: int, j: int| 0 <= i < j < s.len() ==> less(#[trigger] s[i], #[trigger] s[j])
}

/// Whether an order never holds both ways.
pub open spec fn one_way<A>(less: spec_fn(A, A) -> bool) -> bool {
    forall|a: A, b: A| #[trigger] less(a, b) ==> !less(b, a)
}

proof fn insertion_sorts<A>(s: Seq<A>, p: int, a: A, less: spec_fn(A, A) -> bool)
    requires
        sorted(s, less),
        0 <= p <= s.len(),
        forall|i: int| 0 <= i < p ==> less(#[trigger] s[i], a),
        forall|i: int| p <= i < s.len() ==> less(a, #[trigger] s[i]),
    ensures
        sorted(s.insert(p, a), less),
{
    let n = s.insert(p, a);
    assert forall|i: int, j: int| 0 <= i < j < n.len() implies less(#[trigger] n[i], #[trigger] n[j]) by {
        let i0 = if i < p {
            i
        } else {
            i - 1
        };
        let j0 = if j < p {
            j
        } else {
            j - 1
        };
        if i != p {
            assert(n[i] == s[i0]);
        }
        if j != p {
            assert(n[j] == s[j0]);
        }
    }
}

/// Sorted lists of the same things are the same, given that they are as far as `k`.
proof fn sorted_lists_are_one<A>(x: Seq<A>, y: Seq<A>, less: spec_fn(A, A) -> bool, k: int)
    requires
        sorted(x, less),
        sorted(y, less),
        one_way(less),
        forall|a: A| x.contains(a) <==> y.contains(a),
        0 <= k <= x.len(),
        k <= y.len(),
        forall|i: int| 0 <= i < k ==> x[i] == y[i],
    ensures
        x == y,
    decreases x.len() - k,
{
    if k < x.len() {
        assert(x.contains(x[k]));
        let j = choose|j: int| 0 <= j < y.len() && y[j] == x[k];
        if j < k {
            assert(less(x[j], x[k]));
        }
        assert(y.contains(y[k]));
        let m = choose|m: int| 0 <= m < x.len() && x[m] == y[k];
        if m < k {
            assert(less(y[m], y[k]));
        }
        if j > k {
            assert(less(y[k], y[j]));
            if m > k {
                assert(less(x[k], x[m]));
            }
        }
        sorted_lists_are_one(x, y, less, k + 1);
    } else if k < y.len() {
        assert(y.contains(y[k]));
        let m = choose|m: int| 0 <= m < x.len() && x[m] == y[k];
        assert(less(y[m], y[k]));
    } else {
        assert(x =~= y);
    }
}

proof fn names_are_ordered(a: Seq<u8>, b: Seq<u8>, i: int)
    requires
        0 <= i <= a.len(),
        i <= b.len(),
        forall|k: int| 0 <= k < i ==> a[k] == b[k],
    ensures
        a == b ==> !tree::name_less(a, b, i),
        a != b ==> tree::name_less(a, b, i) == !tree::name_less(b, a, i),
    decreases b.len() - i,
{
    if i < a.len() && i < b.len() {
        if a[i] == b[i] {
            names_are_ordered(a, b, i + 1);
        }
    } else if a.len() == b.len() {
        assert(a =~= b);
    }
}

proof fn names_are_transitive(a: Seq<u8>, b: Seq<u8>, c: Seq<u8>, i: int)
    requires
        0 <= i,
        tree::name_less(a, b, i),
        tree::name_less(b, c, i),
    ensures
        tree::name_less(a, c, i),
    decreases c.len() - i,
{
    if i < a.len() && a[i] == b[i] && b[i] == c[i] {
        names_are_transitive(a, b, c, i + 1);
    }
}

proof fn paths_are_ordered(a: Seq<Seq<u8>>, b: Seq<Seq<u8>>, i: int)
    requires
        0 <= i <= a.len(),
        i <= b.len(),
        forall|k: int| 0 <= k < i ==> a[k] == b[k],
    ensures
        a == b ==> !tree::path_less(a, b, i),
        a != b ==> tree::path_less(a, b, i) == !tree::path_less(b, a, i),
    decreases b.len() - i,
{
    if i < a.len() && i < b.len() {
        names_are_ordered(a[i], b[i], 0);
        if a[i] == b[i] {
            paths_are_ordered(a, b, i + 1);
        }
    } else if a.len() == b.len() {
        assert(a =~= b);
    }
}

proof fn paths_are_transitive(a: Seq<Seq<u8>>, b: Seq<Seq<u8>>, c: Seq<Seq<u8>>, i: int)
    requires
        0 <= i,
        tree::path_less(a, b, i),
        tree::path_less(b, c, i),
    ensures
        tree::path_less(a, c, i),
    decreases c.len() - i,
{
    if i < a.len() {
        names_are_ordered(a[i], b[i], 0);
        if a[i] == b[i] && b[i] == c[i] {
            paths_are_transitive(a, b, c, i + 1);
        } else if a[i] != b[i] && b[i] != c[i] {
            names_are_transitive(a[i], b[i], c[i], 0);
            names_are_ordered(b[i], c[i], 0);
        }
    }
}

/// The order of directories.
pub open spec fn dirs_less() -> spec_fn(Seq<Seq<u8>>, Seq<Seq<u8>>) -> bool {
    |a: Seq<Seq<u8>>, b: Seq<Seq<u8>>| tree::path_less(a, b, 0)
}

/// The order of files: by directory, and then by name.
pub open spec fn files_less() -> spec_fn(tree::Leaf, tree::Leaf) -> bool {
    |a: tree::Leaf, b: tree::Leaf| tree::leaf_less(a, b.dir, b.name)
}

proof fn orders_are_one_way()
    ensures
        one_way(dirs_less()),
        one_way(files_less()),
{
    assert forall|a: Seq<Seq<u8>>, b: Seq<Seq<u8>>| #[trigger] dirs_less()(a, b) implies !dirs_less()(b, a) by {
        paths_are_ordered(a, b, 0);
    }
    assert forall|a: tree::Leaf, b: tree::Leaf| #[trigger] files_less()(a, b) implies !files_less()(b, a) by {
        paths_are_ordered(a.dir, b.dir, 0);
        names_are_ordered(a.name, b.name, 0);
    }
}

proof fn leaves_are_transitive(a: tree::Leaf, b: tree::Leaf, c: tree::Leaf)
    requires
        files_less()(a, b),
        files_less()(b, c),
    ensures
        files_less()(a, c),
{
    if a.dir == b.dir && b.dir == c.dir {
        names_are_transitive(a.name, b.name, c.name, 0);
    } else if a.dir != b.dir && b.dir != c.dir {
        paths_are_transitive(a.dir, b.dir, c.dir, 0);
        paths_are_ordered(a.dir, b.dir, 0);
        paths_are_ordered(b.dir, c.dir, 0);
    }
}

proof fn dir_slot_parts(dirs: Seq<Seq<Seq<u8>>>, d: Seq<Seq<u8>>, i: int)
    requires
        0 <= i <= dirs.len(),
        forall|k: int| 0 <= k < i ==> tree::path_less(#[trigger] dirs[k], d, 0),
    ensures
        ({
            let p = tree::dir_slot(dirs, d, i);
            &&& i <= p <= dirs.len()
            &&& forall|k: int| 0 <= k < p ==> tree::path_less(#[trigger] dirs[k], d, 0)
            &&& p < dirs.len() ==> !tree::path_less(dirs[p], d, 0)
        }),
    decreases dirs.len() - i,
{
    if i < dirs.len() && tree::path_less(dirs[i], d, 0) {
        dir_slot_parts(dirs, d, i + 1);
    }
}

proof fn file_slot_parts(files: Seq<tree::Leaf>, l: tree::Leaf, i: int)
    requires
        0 <= i <= files.len(),
        forall|k: int| 0 <= k < i ==> tree::leaf_less(#[trigger] files[k], l.dir, l.name),
    ensures
        ({
            let p = tree::file_slot(files, l.dir, l.name, i);
            &&& i <= p <= files.len()
            &&& forall|k: int| 0 <= k < p ==> tree::leaf_less(#[trigger] files[k], l.dir, l.name)
            &&& p < files.len() ==> !tree::leaf_less(files[p], l.dir, l.name)
        }),
    decreases files.len() - i,
{
    if i < files.len() && tree::leaf_less(files[i], l.dir, l.name) {
        file_slot_parts(files, l, i + 1);
    }
}

/// Whether directories and files stand in order.
pub open spec fn in_order(t: tree::Tree) -> bool {
    sorted(t.dirs, dirs_less()) && sorted(t.files, files_less())
}

proof fn with_dir_is_in_order(t: tree::Tree, d: Seq<Seq<u8>>)
    requires
        in_order(t),
    ensures
        in_order(tree::with_dir(t, d)),
        forall|x: Seq<Seq<u8>>| tree::with_dir(t, d).dirs.contains(x) <==> t.dirs.contains(x) || x == d,
        tree::with_dir(t, d).files == t.files,
{
    if !t.dirs.contains(d) {
        let p = tree::dir_slot(t.dirs, d, 0);
        dir_slot_parts(t.dirs, d, 0);
        assert forall|i: int| p <= i < t.dirs.len() implies dirs_less()(d, #[trigger] t.dirs[i]) by {
            assert(t.dirs.contains(t.dirs[p]));
            paths_are_ordered(t.dirs[p], d, 0);
            if i > p {
                assert(dirs_less()(t.dirs[p], t.dirs[i]));
                paths_are_transitive(d, t.dirs[p], t.dirs[i], 0);
            }
        }
        insertion_sorts(t.dirs, p, d, dirs_less());
        sound::insert_keeps(t.dirs, p, d);
    }
}

proof fn with_file_is_in_order(t: tree::Tree, l: tree::Leaf)
    requires
        in_order(t),
        !tree::has_file(t, l.dir, l.name),
    ensures
        in_order(tree::with_file(t, l)),
        forall|x: tree::Leaf| tree::with_file(t, l).files.contains(x) <==> t.files.contains(x) || x == l,
        tree::with_file(t, l).dirs == t.dirs,
{
    let p = tree::file_slot(t.files, l.dir, l.name, 0);
    file_slot_parts(t.files, l, 0);
    assert forall|i: int| p <= i < t.files.len() implies files_less()(l, #[trigger] t.files[i]) by {
        let f = t.files[p];
        assert(!(f.dir == l.dir && f.name == l.name));
        paths_are_ordered(f.dir, l.dir, 0);
        names_are_ordered(f.name, l.name, 0);
        assert(files_less()(l, f));
        if i > p {
            assert(files_less()(f, t.files[i]));
            leaves_are_transitive(l, f, t.files[i]);
        }
    }
    insertion_sorts(t.files, p, l, files_less());
    sound::insert_keeps(t.files, p, l);
}

/// Whether a path whose components are `comps` leads through `d`, below its first `i` components.
pub open spec fn leads_through(comps: Seq<Seq<char>>, d: Seq<Seq<u8>>, i: int) -> bool {
    exists|j: int| i < j < comps.len() && d == #[trigger] sound::stored_path(comps, j as nat)
}

proof fn grown_is_in_order(
    t: tree::Tree,
    f: tree::Item,
    what: Seq<char>,
    comps: Seq<Seq<char>>,
    i: int,
    dir: Seq<Seq<u8>>,
)
    requires
        in_order(t),
        0 <= i < comps.len(),
        dir == sound::stored_path(comps, i as nat),
        tree::grown(t, f, what, comps, i, dir) is Ok,
    ensures
        ({
            let r = tree::grown(t, f, what, comps, i, dir)->Ok_0;
            let last = (comps.len() - 1) as nat;
            let l = tree::Leaf {
                dir: sound::stored_path(comps, last),
                name: fat16::stored(comps[last as int])->0,
                data: f.data,
            };
            &&& in_order(r)
            &&& forall|x: tree::Leaf| r.files.contains(x) <==> t.files.contains(x) || x == l
            &&& forall|d: Seq<Seq<u8>>| #[trigger]
                r.dirs.contains(d) <==> t.dirs.contains(d) || leads_through(comps, d, i)
        }),
    decreases comps.len() - i,
{
    let n = fat16::stored(comps[i])->0;
    let r = tree::grown(t, f, what, comps, i, dir)->Ok_0;
    if i + 1 == comps.len() {
        with_file_is_in_order(t, tree::Leaf { dir, name: n, data: f.data });
    } else {
        let next = dir.push(n);
        assert(next =~= sound::stored_path(comps, (i + 1) as nat));
        with_dir_is_in_order(t, next);
        grown_is_in_order(tree::with_dir(t, next), f, what, comps, i + 1, next);
        assert forall|d: Seq<Seq<u8>>| #[trigger]
            r.dirs.contains(d) <==> t.dirs.contains(d) || leads_through(comps, d, i) by {
            if leads_through(comps, d, i) && d != next {
                let j = choose|j: int| i < j < comps.len() && d == #[trigger] sound::stored_path(comps, j as nat);
                assert(j != i + 1);
                assert(leads_through(comps, d, i + 1));
            }
            if leads_through(comps, d, i + 1) {
                let j = choose|j: int| i + 1 < j < comps.len() && d == #[trigger] sound::stored_path(comps, j as nat);
                assert(leads_through(comps, d, i));
            }
            if d == next {
                assert(d == sound::stored_path(comps, (i + 1) as nat));
                assert(leads_through(comps, d, i));
            }
        }
    }
}

/// Whether one of the first `k` files lies below `d`.
pub open spec fn above_some(files: Seq<tree::Item>, d: Seq<Seq<u8>>, k: int) -> bool {
    exists|i: int| 0 <= i < k && leads_through(text::pieces((#[trigger] files[i]).path, '/', 0), d, 0)
}

/// Whether `l` is one of the first `k` files.
pub open spec fn is_given(files: Seq<tree::Item>, l: tree::Leaf, k: int) -> bool {
    exists|i: int| 0 <= i < k && l == sound::leaf_of(#[trigger] files[i])
}

/// A tree holds the files it was given and the directories above them, each in its order.
pub(crate) proof fn planted_is_in_order(files: Seq<tree::Item>, what: Seq<char>, k: nat)
    requires
        k <= files.len(),
        tree::planted(files, what, k) is Ok,
    ensures
        ({
            let t = tree::planted(files, what, k)->Ok_0;
            &&& in_order(t)
            &&& forall|l: tree::Leaf| #[trigger] t.files.contains(l) <==> is_given(files, l, k as int)
            &&& forall|d: Seq<Seq<u8>>| #[trigger]
                t.dirs.contains(d) <==> d.len() == 0 || above_some(files, d, k as int)
        }),
    decreases k,
{
    let r = tree::planted(files, what, k)->Ok_0;
    if k == 0 {
        assert forall|d: Seq<Seq<u8>>| #[trigger]
            r.dirs.contains(d) <==> d.len() == 0 || above_some(files, d, 0) by {
            assert(r.dirs[0] == Seq::<Seq<u8>>::empty());
            if d.len() == 0 {
                assert(d =~= r.dirs[0]);
            }
        }
    } else {
        let before = (k - 1) as nat;
        planted_is_in_order(files, what, before);
        let t = tree::planted(files, what, before)->Ok_0;
        let f = files[k - 1];
        let comps = text::pieces(f.path, '/', 0);
        sound::pieces_are_some(f.path, '/', 0);
        assert(sound::stored_path(comps, 0) =~= seq![]);
        grown_is_in_order(t, f, what, comps, 0, seq![]);
        assert forall|l: tree::Leaf| #[trigger] r.files.contains(l) <==> is_given(files, l, k as int) by {
            if is_given(files, l, k as int) {
                let i = choose|i: int| 0 <= i < k && l == sound::leaf_of(#[trigger] files[i]);
                if i < k - 1 {
                    assert(is_given(files, l, k - 1));
                    assert(t.files.contains(l));
                }
            }
            if t.files.contains(l) {
                let i = choose|i: int| 0 <= i < k - 1 && l == sound::leaf_of(#[trigger] files[i]);
                assert(is_given(files, l, k as int));
            }
            if l == sound::leaf_of(f) {
                assert(is_given(files, l, k as int));
            }
        }
        assert forall|d: Seq<Seq<u8>>| #[trigger]
            r.dirs.contains(d) <==> d.len() == 0 || above_some(files, d, k as int) by {
            if above_some(files, d, k as int) {
                let i = choose|i: int|
                    0 <= i < k && leads_through(text::pieces((#[trigger] files[i]).path, '/', 0), d, 0);
                if i < k - 1 {
                    assert(above_some(files, d, k - 1));
                    assert(t.dirs.contains(d));
                }
            }
            if above_some(files, d, k - 1) {
                let i = choose|i: int|
                    0 <= i < k - 1 && leads_through(text::pieces((#[trigger] files[i]).path, '/', 0), d, 0);
                assert(above_some(files, d, k as int));
            }
            if leads_through(comps, d, 0) {
                assert(above_some(files, d, k as int));
            }
            assert(t.dirs.contains(d) <==> d.len() == 0 || above_some(files, d, k - 1));
        }
    }
}

/// Whether every component of a file's path is a name.
pub open spec fn is_nameable(f: tree::Item) -> bool {
    let comps = text::pieces(f.path, '/', 0);
    forall|m: int| 0 <= m < comps.len() ==> fat16::stored(#[trigger] comps[m]) is Some
}

/// The stored names of a path, from the root to the file itself.
pub open spec fn full_path(f: tree::Item) -> Seq<Seq<u8>> {
    let comps = text::pieces(f.path, '/', 0);
    sound::stored_path(comps, comps.len())
}

/// Whether the path of `g` leads to `f` or through it.
pub open spec fn collides(f: tree::Item, g: tree::Item) -> bool {
    let comps = text::pieces(g.path, '/', 0);
    exists|m: int| 0 < m <= comps.len() && full_path(f) == #[trigger] sound::stored_path(comps, m as nat)
}

/// Whether the first `k` files can stand on one volume: each has a name, and no path leads to
/// another file or through it.
pub open spec fn can_stand(files: Seq<tree::Item>, k: int) -> bool {
    &&& forall|i: int| 0 <= i < k ==> is_nameable(#[trigger] files[i])
    &&& forall|i: int, j: int|
        0 <= i < k && 0 <= j < k && i != j ==> !collides(#[trigger] files[i], #[trigger] files[j])
}

/// Whether a file stands at a path.
spec fn stands(t: tree::Tree, p: Seq<Seq<u8>>) -> bool {
    exists|k: int| 0 <= k < t.files.len() && (#[trigger] t.files[k]).dir.push(t.files[k].name) == p
}

proof fn stands_by_name(t: tree::Tree, dir: Seq<Seq<u8>>, n: Seq<u8>)
    ensures
        tree::has_file(t, dir, n) == stands(t, dir.push(n)),
{
    if stands(t, dir.push(n)) {
        let k = choose|k: int| 0 <= k < t.files.len() && (#[trigger] t.files[k]).dir.push(t.files[k].name) == dir.push(n);
        let f = t.files[k];
        assert(f.dir =~= f.dir.push(f.name).drop_last());
        assert(dir =~= dir.push(n).drop_last());
        assert(f.name == f.dir.push(f.name).last());
        assert(n == dir.push(n).last());
        assert(tree::has_file(t, dir, n));
    }
    if tree::has_file(t, dir, n) {
        let k = choose|k: int| 0 <= k < t.files.len() && (#[trigger] t.files[k]).dir == dir && t.files[k].name == n;
        assert(stands(t, dir.push(n)));
    }
}

/// Whether a path whose components are `comps` meets no file below its first `i` components, and
/// ends at no directory.
spec fn is_free(t: tree::Tree, comps: Seq<Seq<char>>, i: int) -> bool {
    &&& forall|m: int| i <= m < comps.len() ==> fat16::stored(#[trigger] comps[m]) is Some
    &&& forall|m: int| i < m <= comps.len() ==> !stands(t, #[trigger] sound::stored_path(comps, m as nat))
    &&& !t.dirs.contains(sound::stored_path(comps, comps.len()))
}

proof fn grows_where_it_is_free(
    t: tree::Tree,
    f: tree::Item,
    what: Seq<char>,
    comps: Seq<Seq<char>>,
    i: int,
    dir: Seq<Seq<u8>>,
)
    requires
        0 <= i < comps.len(),
        dir == sound::stored_path(comps, i as nat),
    ensures
        tree::grown(t, f, what, comps, i, dir) is Ok <==> is_free(t, comps, i),
    decreases comps.len() - i,
{
    let n = fat16::stored(comps[i])->0;
    let next = dir.push(n);
    assert(next =~= sound::stored_path(comps, (i + 1) as nat));
    stands_by_name(t, dir, n);
    if fat16::stored(comps[i]) is Some {
        if i + 1 == comps.len() {
            assert(is_free(t, comps, i) <==> !stands(t, next) && !t.dirs.contains(next));
        } else {
            let u = tree::with_dir(t, next);
            let whole = sound::stored_path(comps, comps.len());
            grows_where_it_is_free(u, f, what, comps, i + 1, next);
            assert(u.files == t.files);
            assert(next != whole) by {
                assert(next.len() != whole.len());
            }
            assert(u.dirs.contains(whole) <==> t.dirs.contains(whole)) by {
                if !t.dirs.contains(next) {
                    dir_slot_bounds(t.dirs, next, 0);
                    sound::insert_keeps(t.dirs, tree::dir_slot(t.dirs, next, 0), next);
                }
            }
            assert forall|m: int| i < m <= comps.len() implies stands(
                u,
                #[trigger] sound::stored_path(comps, m as nat),
            ) == stands(t, sound::stored_path(comps, m as nat)) by {}
            if is_free(u, comps, i + 1) && !stands(t, next) {
                assert forall|m: int| i < m <= comps.len() implies !stands(
                    t,
                    #[trigger] sound::stored_path(comps, m as nat),
                ) by {
                    if m == i + 1 {
                        assert(sound::stored_path(comps, m as nat) == next);
                    }
                }
                assert(is_free(t, comps, i));
            }
            if is_free(t, comps, i) {
                assert(!stands(t, sound::stored_path(comps, (i + 1) as nat)));
                assert(is_free(u, comps, i + 1));
            }
        }
    }
}

proof fn dir_slot_bounds(dirs: Seq<Seq<Seq<u8>>>, d: Seq<Seq<u8>>, i: int)
    requires
        0 <= i <= dirs.len(),
    ensures
        i <= tree::dir_slot(dirs, d, i) <= dirs.len(),
    decreases dirs.len() - i,
{
    if i < dirs.len() && tree::path_less(dirs[i], d, 0) {
        dir_slot_bounds(dirs, d, i + 1);
    }
}

/// Files are arranged exactly if they can stand on one volume.
pub proof fn files_are_arranged_if_they_can_stand(files: Seq<tree::Item>, what: Seq<char>, k: nat)
    requires
        k <= files.len(),
    ensures
        tree::planted(files, what, k) is Ok <==> can_stand(files, k as int),
    decreases k,
{
    if k > 0 {
        let before = (k - 1) as nat;
        files_are_arranged_if_they_can_stand(files, what, before);
        if can_stand(files, k as int) {
            assert(can_stand(files, k - 1));
        }
        if let Ok(t) = tree::planted(files, what, before) {
            let f = files[k - 1];
            let comps = text::pieces(f.path, '/', 0);
            sound::pieces_are_some(f.path, '/', 0);
            assert(sound::stored_path(comps, 0) =~= seq![]);
            planted_is_in_order(files, what, before);
            grows_where_it_is_free(t, f, what, comps, 0, seq![]);
            assert forall|p: Seq<Seq<u8>>| #[trigger] stands(t, p) <==> is_full_path(files, p, k - 1) by {
                given_stand(files, t, k - 1, p);
            }
            if can_stand(files, k as int) {
                can_stand_is_free(files, t, k as int);
            }
            if is_free(t, comps, 0) {
                free_can_stand(files, t, k as int);
            }
        }
    }
}

/// Whether `p` is where one of the first `k` files stands.
spec fn is_full_path(files: Seq<tree::Item>, p: Seq<Seq<u8>>, k: int) -> bool {
    exists|i: int| 0 <= i < k && full_path(#[trigger] files[i]) == p
}

proof fn leaf_is_at_the_full_path(f: tree::Item)
    ensures
        sound::leaf_of(f).dir.push(sound::leaf_of(f).name) == full_path(f),
        full_path(f).len() > 0,
        full_path(f).len() == text::pieces(f.path, '/', 0).len(),
{
    sound::pieces_are_some(f.path, '/', 0);
    assert(sound::leaf_of(f).dir.push(sound::leaf_of(f).name) =~= full_path(f));
}

proof fn given_stand(files: Seq<tree::Item>, t: tree::Tree, k: int, p: Seq<Seq<u8>>)
    requires
        0 <= k <= files.len(),
        forall|l: tree::Leaf| #[trigger] t.files.contains(l) <==> is_given(files, l, k),
    ensures
        stands(t, p) <==> is_full_path(files, p, k),
{
    if stands(t, p) {
        let x = choose|x: int| 0 <= x < t.files.len() && (#[trigger] t.files[x]).dir.push(t.files[x].name) == p;
        assert(t.files.contains(t.files[x]));
        let i = choose|i: int| 0 <= i < k && t.files[x] == sound::leaf_of(#[trigger] files[i]);
        leaf_is_at_the_full_path(files[i]);
        assert(full_path(files[i]) == p);
    }
    if is_full_path(files, p, k) {
        let i = choose|i: int| 0 <= i < k && full_path(#[trigger] files[i]) == p;
        leaf_is_at_the_full_path(files[i]);
        let l = sound::leaf_of(files[i]);
        assert(is_given(files, l, k));
        assert(t.files.contains(l));
        let x = t.files.index_of(l);
        assert(t.files[x].dir.push(t.files[x].name) == p);
    }
}

proof fn can_stand_is_free(files: Seq<tree::Item>, t: tree::Tree, k: int)
    requires
        0 < k <= files.len(),
        can_stand(files, k),
        forall|p: Seq<Seq<u8>>| #[trigger] stands(t, p) <==> is_full_path(files, p, k - 1),
        forall|d: Seq<Seq<u8>>| #[trigger] t.dirs.contains(d) <==> d.len() == 0 || above_some(files, d, k - 1),
    ensures
        is_free(t, text::pieces(files[k - 1].path, '/', 0), 0),
{
    let f = files[k - 1];
    let comps = text::pieces(f.path, '/', 0);
    assert(is_nameable(f));
    assert forall|m: int| 0 < m <= comps.len() implies !stands(t, #[trigger] sound::stored_path(comps, m as nat)) by {
        let p = sound::stored_path(comps, m as nat);
        if stands(t, p) {
            let i = choose|i: int| 0 <= i < k - 1 && full_path(#[trigger] files[i]) == p;
            assert(collides(files[i], files[k - 1]));
        }
    }
    leaf_is_at_the_full_path(f);
    if t.dirs.contains(full_path(f)) {
        let i = choose|i: int|
            0 <= i < k - 1 && leads_through(text::pieces((#[trigger] files[i]).path, '/', 0), full_path(f), 0);
        assert(collides(files[k - 1], files[i]));
    }
}

proof fn free_can_stand(files: Seq<tree::Item>, t: tree::Tree, k: int)
    requires
        0 < k <= files.len(),
        can_stand(files, k - 1),
        is_free(t, text::pieces(files[k - 1].path, '/', 0), 0),
        forall|p: Seq<Seq<u8>>| #[trigger] stands(t, p) <==> is_full_path(files, p, k - 1),
        forall|d: Seq<Seq<u8>>| #[trigger] t.dirs.contains(d) <==> d.len() == 0 || above_some(files, d, k - 1),
    ensures
        can_stand(files, k),
{
    let f = files[k - 1];
    let comps = text::pieces(f.path, '/', 0);
    leaf_is_at_the_full_path(f);
    assert(is_nameable(f));
    assert forall|i: int, j: int| 0 <= i < k && 0 <= j < k && i != j implies !collides(
        #[trigger] files[i],
        #[trigger] files[j],
    ) by {
        if collides(files[i], files[j]) {
            let other = text::pieces(files[j].path, '/', 0);
            let m = choose|m: int|
                0 < m <= other.len() && full_path(files[i]) == #[trigger] sound::stored_path(other, m as nat);
            if j == k - 1 {
                assert(is_full_path(files, full_path(files[i]), k - 1));
                assert(!stands(t, sound::stored_path(comps, m as nat)));
            } else if i == k - 1 {
                if m == other.len() {
                    assert(is_full_path(files, full_path(files[j]), k - 1));
                    assert(!stands(t, sound::stored_path(comps, comps.len())));
                } else {
                    assert(leads_through(other, full_path(f), 0));
                    assert(above_some(files, full_path(f), k - 1));
                }
            }
        }
    }
}

/// Files that can stand on one volume can in any order.
proof fn any_order_can_stand(a: Seq<tree::Item>, b: Seq<tree::Item>)
    requires
        a.to_multiset() == b.to_multiset(),
        can_stand(a, a.len() as int),
    ensures
        can_stand(b, b.len() as int),
{
    same_things(a, b);
    assert forall|i: int| 0 <= i < b.len() implies is_nameable(#[trigger] b[i]) by {
        assert(b.contains(b[i]));
        assert(is_nameable(a[a.index_of(b[i])]));
    }
    assert forall|i: int, j: int| 0 <= i < a.len() && 0 <= j < a.len() && i != j implies a[i] != a[j] by {
        if a[i] == a[j] {
            let comps = text::pieces(a[i].path, '/', 0);
            leaf_is_at_the_full_path(a[i]);
            assert(full_path(a[i]) == sound::stored_path(comps, comps.len()));
            assert(collides(a[i], a[j]));
        }
    }
    a.lemma_multiset_has_no_duplicates();
    b.lemma_multiset_has_no_duplicates_conv();
    assert forall|i: int, j: int| 0 <= i < b.len() && 0 <= j < b.len() && i != j implies !collides(
        #[trigger] b[i],
        #[trigger] b[j],
    ) by {
        assert(b.contains(b[i]) && b.contains(b[j]));
        let (x, y) = (a.index_of(b[i]), a.index_of(b[j]));
        assert(a[x] == b[i] && a[y] == b[j]);
        assert(x != y);
    }
}

proof fn same_things(a: Seq<tree::Item>, b: Seq<tree::Item>)
    requires
        a.to_multiset() == b.to_multiset(),
    ensures
        forall|f: tree::Item| a.contains(f) <==> b.contains(f),
{
    broadcast use vstd::seq_lib::group_to_multiset_ensures;

    assert forall|f: tree::Item| a.contains(f) <==> b.contains(f) by {
        assert(a.contains(f) <==> a.to_multiset().count(f) > 0);
        assert(b.contains(f) <==> b.to_multiset().count(f) > 0);
    }
}

/// The same files are arranged or refused in whatever order they are given, and make the same tree.
pub proof fn files_are_arranged_in_any_order(a: Seq<tree::Item>, b: Seq<tree::Item>, what: Seq<char>)
    requires
        a.to_multiset() == b.to_multiset(),
    ensures
        tree::planted(a, what, a.len()) is Ok <==> tree::planted(b, what, b.len()) is Ok,
        tree::planted(a, what, a.len()) is Ok ==> tree::planted(a, what, a.len()) == tree::planted(b, what, b.len()),
{
    files_are_arranged_if_they_can_stand(a, what, a.len());
    files_are_arranged_if_they_can_stand(b, what, b.len());
    if can_stand(a, a.len() as int) {
        any_order_can_stand(a, b);
        same_things(a, b);
        trees_of_the_same_files(a, b, what);
    }
    if can_stand(b, b.len() as int) {
        any_order_can_stand(b, a);
    }
}

proof fn trees_of_the_same_files(a: Seq<tree::Item>, b: Seq<tree::Item>, what: Seq<char>)
    requires
        tree::planted(a, what, a.len()) is Ok,
        tree::planted(b, what, b.len()) is Ok,
        forall|f: tree::Item| a.contains(f) <==> b.contains(f),
    ensures
        tree::planted(a, what, a.len()) == tree::planted(b, what, b.len()),
{
    planted_is_in_order(a, what, a.len());
    planted_is_in_order(b, what, b.len());
    orders_are_one_way();
    let (x, y) = (tree::planted(a, what, a.len())->Ok_0, tree::planted(b, what, b.len())->Ok_0);
    assert forall|l: tree::Leaf| x.files.contains(l) <==> y.files.contains(l) by {
        given_either_way(a, b, l);
        given_either_way(b, a, l);
    }
    assert forall|d: Seq<Seq<u8>>| x.dirs.contains(d) <==> y.dirs.contains(d) by {
        above_either_way(a, b, d);
        above_either_way(b, a, d);
    }
    sorted_lists_are_one(x.files, y.files, files_less(), 0);
    sorted_lists_are_one(x.dirs, y.dirs, dirs_less(), 0);
}

proof fn given_either_way(a: Seq<tree::Item>, b: Seq<tree::Item>, l: tree::Leaf)
    requires
        forall|f: tree::Item| a.contains(f) <==> b.contains(f),
    ensures
        is_given(a, l, a.len() as int) ==> is_given(b, l, b.len() as int),
{
    if is_given(a, l, a.len() as int) {
        let i = choose|i: int| 0 <= i < a.len() && l == sound::leaf_of(#[trigger] a[i]);
        assert(a.contains(a[i]));
        let j = choose|j: int| 0 <= j < b.len() && b[j] == a[i];
        assert(l == sound::leaf_of(b[j]));
    }
}

proof fn above_either_way(a: Seq<tree::Item>, b: Seq<tree::Item>, d: Seq<Seq<u8>>)
    requires
        forall|f: tree::Item| a.contains(f) <==> b.contains(f),
    ensures
        above_some(a, d, a.len() as int) ==> above_some(b, d, b.len() as int),
{
    if above_some(a, d, a.len() as int) {
        let i = choose|i: int|
            0 <= i < a.len() && leads_through(text::pieces((#[trigger] a[i]).path, '/', 0), d, 0);
        assert(a.contains(a[i]));
        let j = choose|j: int| 0 <= j < b.len() && b[j] == a[i];
        assert(leads_through(text::pieces(b[j].path, '/', 0), d, 0));
    }
}

} // verus!
