//! A written volume checks clean: a walk over it meets every directory and every file once, and
//! nothing is lost.

use vstd::prelude::*;

use super::law;
use super::plan;
use super::read;
use super::sound;
use super::tree;
use crate::text;

verus! {

/// Whether path `a` leads towards `b`.
pub open spec fn leads(a: Seq<Seq<u8>>, b: Seq<Seq<u8>>) -> bool {
    a.len() <= b.len() && b.subrange(0, a.len() as int) == a
}

/// Whether item `j` lies in the directory at `k`, at any depth.
pub open spec fn under(t: tree::Tree, k: int, j: int) -> bool {
    let nd = t.dirs.len();
    if j < nd {
        0 <= j && j != k && leads(t.dirs[k], t.dirs[j])
    } else {
        j < nd + t.files.len() && leads(t.dirs[k], t.files[j - nd].dir)
    }
}

/// Whether item `j` is the `x`th thing in the directory at `k`, or lies in it.
pub open spec fn met_at(t: tree::Tree, k: int, x: int, j: int) -> bool {
    let s = plan::subs_at(t, k);
    let l = plan::leaves_at(t, k);
    if x < s.len() {
        j == s[x] || under(t, s[x], j)
    } else {
        x < s.len() + l.len() && j == t.dirs.len() + l[x - s.len()]
    }
}

/// Whether item `j` was met among the first `i` things in the directory at `k`.
pub open spec fn met(t: tree::Tree, k: int, i: int, j: int) -> bool {
    exists|x: int| 0 <= x < i && #[trigger] met_at(t, k, x, j)
}

/// Whether a cluster is one of item `j`'s.
pub open spec fn taken_by(f: plan::Shape, t: tree::Tree, j: int, c: int) -> bool {
    plan::start(f, t, j as nat) <= c < plan::start(f, t, j as nat) + plan::need(f, t, j)
}

/// What holds of a walk that has met the items in `s`: their clusters are claimed and no
/// others, and the counts are those of the items.
pub open spec fn stands_at(f: plan::Shape, t: tree::Tree, s: Set<int>, w: read::Walk) -> bool {
    let nd = t.dirs.len();
    &&& s.finite()
    &&& forall|j: int| s.contains(j) ==> 0 <= j < nd + t.files.len()
    &&& w.seen.len() == f.clusters + 2
    &&& forall|c: int|
        0 <= c < w.seen.len() ==> (#[trigger] w.seen[c] <==> exists|j: int| s.contains(j) && taken_by(f, t, j, c))
    &&& w.files == s.filter(|j: int| j >= nd).len()
    &&& w.dirs == s.filter(|j: int| 0 < j < nd).len()
    &&& w.claimed == read::trues(w.seen, w.seen.len())
}

proof fn runs_apart(f: plan::Shape, t: tree::Tree, i: int, j: int, c: int)
    requires
        f.cluster > 0,
        0 <= i,
        0 <= j,
        taken_by(f, t, i, c),
        taken_by(f, t, j, c),
    ensures
        i == j,
{
    if i < j {
        plan::start_grows(f, t, (i + 1) as nat, j as nat);
    } else if j < i {
        plan::start_grows(f, t, (j + 1) as nat, i as nat);
    }
}

proof fn claim_run(seen: Seq<bool>, first: int, n: int, i: int)
    requires
        0 <= i <= n,
        0 <= first,
        first + n <= seen.len(),
        forall|c: int| first + i <= c < first + n ==> !#[trigger] seen[c],
    ensures
        ({
            let r = read::claim(seen, law::run(first, n), i);
            &&& r is Ok
            &&& r->Ok_0.len() == seen.len()
            &&& forall|c: int|
                0 <= c < seen.len() ==> (#[trigger] r->Ok_0[c] <==> seen[c] || first + i <= c < first + n)
        }),
    decreases n - i,
{
    if i < n {
        let c = first + i;
        assert(law::run(first, n)[i] == c);
        claim_run(seen.update(c, true), first, n, i + 1);
    }
}

proof fn trues_of_claim(seen: Seq<bool>, first: int, n: int)
    requires
        0 <= n,
        0 <= first,
        first + n <= seen.len(),
        forall|c: int| first <= c < first + n ==> !#[trigger] seen[c],
    ensures
        ({
            let r = read::claim(seen, law::run(first, n), 0)->Ok_0;
            read::trues(r, seen.len()) == read::trues(seen, seen.len()) + n
        }),
{
    claim_run(seen, first, n, 0);
    assert forall|k: int| 0 <= k < law::run(first, n).len() implies 0 <= #[trigger] law::run(first, n)[k]
        < seen.len() by {}
    read::claim_counts(seen, law::run(first, n), 0);
}

/// Meeting one item more.
proof fn meet(f: plan::Shape, t: tree::Tree, s: Set<int>, w: read::Walk, j: int, seen: Seq<bool>)
    requires
        f.cluster > 0,
        plan::wrong(f, t) is None,
        stands_at(f, t, s, w),
        0 < j < t.dirs.len() + t.files.len(),
        !s.contains(j),
        seen.len() == w.seen.len(),
        forall|c: int| 0 <= c < seen.len() ==> (#[trigger] seen[c] <==> w.seen[c] || taken_by(f, t, j, c)),
        read::trues(seen, seen.len()) == w.claimed + plan::need(f, t, j),
    ensures
        stands_at(
            f,
            t,
            s.insert(j),
            read::Walk {
                seen,
                files: w.files + if j >= t.dirs.len() {
                    1int
                } else {
                    0int
                },
                dirs: w.dirs + if j < t.dirs.len() {
                    1int
                } else {
                    0int
                },
                claimed: w.claimed + plan::need(f, t, j),
            },
        ),
{
    let nd = t.dirs.len();
    let s2 = s.insert(j);
    assert forall|c: int| 0 <= c < seen.len() implies (#[trigger] seen[c] <==> exists|i: int|
        s2.contains(i) && taken_by(f, t, i, c)) by {
        if w.seen[c] {
            let i = choose|i: int| s.contains(i) && taken_by(f, t, i, c);
            assert(s2.contains(i) && taken_by(f, t, i, c));
        }
        if taken_by(f, t, j, c) {
            assert(s2.contains(j) && taken_by(f, t, j, c));
        }
        if exists|i: int| s2.contains(i) && taken_by(f, t, i, c) {
            let i = choose|i: int| s2.contains(i) && taken_by(f, t, i, c);
            if i != j {
                assert(s.contains(i) && taken_by(f, t, i, c));
            }
        }
    }
    let file = |i: int| i >= nd;
    let dir = |i: int| 0 < i < nd;
    s.lemma_len_filter(file);
    s.lemma_len_filter(dir);
    if j >= nd {
        assert(s2.filter(file) =~= s.filter(file).insert(j));
        assert(s2.filter(dir) =~= s.filter(dir));
    } else {
        assert(s2.filter(dir) =~= s.filter(dir).insert(j));
        assert(s2.filter(file) =~= s.filter(file));
    }
}

/// A visit to an item that was not met before.
#[verifier::rlimit(30)]
proof fn visit_ok(
    m: read::Media,
    f: plan::Shape,
    t: tree::Tree,
    s: Set<int>,
    w: read::Walk,
    j: int,
    here: Seq<char>,
)
    requires
        law::carries(m, f, t),
        stands_at(f, t, s, w),
        0 < j < t.dirs.len() + t.files.len(),
        !s.contains(j),
    ensures
        ({
            let e = if j < t.dirs.len() {
                law::dir_found(f, t, j)
            } else {
                law::file_found(f, t, j - t.dirs.len())
            };
            let r = read::visited(m, e, here, w);
            &&& r is Ok
            &&& stands_at(f, t, s.insert(j), r->Ok_0)
        }),
{
    let nd = t.dirs.len();
    let n = plan::need(f, t, j);
    plan::need_is_natural(f, t, j);
    law::start_within(f, t, j as nat);
    law::start_within(f, t, (j + 1) as nat);
    if n == 0 {
        assert(j >= nd);
        meet(f, t, s, w, j, w.seen);
    } else {
        let first = plan::start(f, t, j as nat);
        law::chain_of_item(m, f, t, j as nat, 0);
        assert(law::run(first, 0) =~= seq![]);
        assert forall|c: int| first <= c < first + n implies !#[trigger] w.seen[c] by {
            if w.seen[c] {
                let i = choose|i: int| s.contains(i) && taken_by(f, t, i, c);
                runs_apart(f, t, i, j, c);
            }
        }
        claim_run(w.seen, first, n, 0);
        trues_of_claim(w.seen, first, n);
        let seen = read::claim(w.seen, law::run(first, n), 0)->Ok_0;
        meet(f, t, s, w, j, seen);
        assert(law::run(first, n).len() == n);
    }
}

proof fn leads_on(a: Seq<Seq<u8>>, b: Seq<Seq<u8>>, c: Seq<Seq<u8>>)
    requires
        leads(a, b),
        leads(b, c),
    ensures
        leads(a, c),
{
    assert(c.subrange(0, a.len() as int) =~= b.subrange(0, a.len() as int)) by {
        assert forall|i: int| 0 <= i < a.len() implies c.subrange(0, a.len() as int)[i] == #[trigger] b.subrange(
            0,
            a.len() as int,
        )[i] by {
            assert(c.subrange(0, b.len() as int)[i] == b[i]);
        }
    }
}

proof fn same_level(a: Seq<Seq<u8>>, b: Seq<Seq<u8>>, c: Seq<Seq<u8>>)
    requires
        a.len() == b.len(),
        leads(a, c),
        leads(b, c),
    ensures
        a == b,
{
}

proof fn sub_leads(t: tree::Tree, k: int, x: int)
    requires
        sound::well_planted(t),
        0 <= k < t.dirs.len(),
        0 <= x < plan::subs_at(t, k).len(),
    ensures
        ({
            let j = plan::subs_at(t, k)[x];
            &&& 0 < j < t.dirs.len()
            &&& t.dirs[j].len() == t.dirs[k].len() + 1
            &&& leads(t.dirs[k], t.dirs[j])
            &&& j != k
        }),
{
    law::subs_are_named(t, k);
    let j = plan::subs_at(t, k)[x];
    assert(t.dirs[j].subrange(0, t.dirs[k].len() as int) =~= t.dirs[j].drop_last());
}

proof fn leaf_lies(t: tree::Tree, k: int, y: int)
    requires
        sound::well_planted(t),
        0 <= k < t.dirs.len(),
        0 <= y < plan::leaves_at(t, k).len(),
    ensures
        0 <= plan::leaves_at(t, k)[y] < t.files.len(),
        under(t, k, t.dirs.len() + plan::leaves_at(t, k)[y]),
{
    law::subs_are_named(t, k);
    let d = t.dirs[k];
    assert(d.subrange(0, d.len() as int) =~= d);
}

proof fn subs_distinct(t: tree::Tree, dir: Seq<Seq<u8>>, k: nat, x: int, y: int)
    requires
        0 <= x < y < plan::subs(t, dir, k).len(),
    ensures
        plan::subs(t, dir, k)[x] < plan::subs(t, dir, k)[y],
    decreases k,
{
    if k > 0 {
        plan::subs_bounded(t, dir, (k - 1) as nat);
        let before = plan::subs(t, dir, (k - 1) as nat);
        if y < before.len() {
            subs_distinct(t, dir, (k - 1) as nat, x, y);
        }
    }
}

proof fn leaves_distinct(t: tree::Tree, dir: Seq<Seq<u8>>, k: nat, x: int, y: int)
    requires
        0 <= x < y < plan::leaves(t, dir, k).len(),
    ensures
        plan::leaves(t, dir, k)[x] < plan::leaves(t, dir, k)[y],
    decreases k,
{
    if k > 0 {
        plan::leaves_bounded(t, dir, (k - 1) as nat);
        let before = plan::leaves(t, dir, (k - 1) as nat);
        if y < before.len() {
            leaves_distinct(t, dir, (k - 1) as nat, x, y);
        }
    }
}

/// Two things in one directory have nothing in common.
proof fn met_apart(t: tree::Tree, k: int, x: int, y: int, j: int)
    requires
        sound::well_planted(t),
        0 <= k < t.dirs.len(),
        0 <= x < y,
        met_at(t, k, x, j),
    ensures
        !met_at(t, k, y, j),
{
    let s = plan::subs_at(t, k);
    let l = plan::leaves_at(t, k);
    let nd = t.dirs.len();
    law::subs_are_named(t, k);
    if met_at(t, k, y, j) {
        if y < s.len() {
            sub_leads(t, k, x);
            sub_leads(t, k, y);
            subs_distinct(t, t.dirs[k], nd, x, y);
            let (a, b) = (t.dirs[s[x]], t.dirs[s[y]]);
            let p = if j < nd {
                t.dirs[j]
            } else {
                t.files[j - nd].dir
            };
            assert(a.subrange(0, a.len() as int) =~= a);
            assert(b.subrange(0, b.len() as int) =~= b);
            same_level(a, b, p);
            assert(t.dirs[s[x]] != t.dirs[s[y]]);
        } else if x < s.len() {
            let o = l[y - s.len()];
            sub_leads(t, k, x);
            assert(t.files[o].dir == t.dirs[k]);
            assert(j == nd + o);
            assert(under(t, s[x], j));
            assert(leads(t.dirs[s[x]], t.files[o].dir));
        } else {
            leaves_distinct(t, t.dirs[k], t.files.len(), x - s.len(), y - s.len());
        }
    }
}

/// What lies in a directory is what is met in it.
proof fn met_all(t: tree::Tree, k: int, j: int)
    requires
        sound::well_planted(t),
        0 <= k < t.dirs.len(),
    ensures
        met(t, k, (plan::subs_at(t, k).len() + plan::leaves_at(t, k).len()) as int, j) <==> under(t, k, j),
{
    let s = plan::subs_at(t, k);
    let l = plan::leaves_at(t, k);
    let nd = t.dirs.len();
    let d = t.dirs[k];
    let n = (s.len() + l.len()) as int;
    if met(t, k, n, j) {
        let x = choose|x: int| 0 <= x < n && met_at(t, k, x, j);
        if x < s.len() {
            sub_leads(t, k, x);
            if j != s[x] {
                let p = if j < nd {
                    t.dirs[j]
                } else {
                    t.files[j - nd].dir
                };
                leads_on(d, t.dirs[s[x]], p);
                if j == k {
                    assert(t.dirs[s[x]].len() <= d.len());
                }
            }
        } else {
            leaf_lies(t, k, x - s.len());
        }
    }
    if under(t, k, j) {
        let p = if j < nd {
            t.dirs[j]
        } else {
            t.files[j - nd].dir
        };
        if j >= nd && p.len() == d.len() {
            assert(p =~= d) by {
                assert(p.subrange(0, d.len() as int) =~= p);
            }
            let y = law::leaves_complete(t, d, t.files.len(), j - nd);
            assert(met_at(t, k, s.len() + y, j));
        } else {
            if p.len() == d.len() {
                assert(p.subrange(0, d.len() as int) =~= p);
                assert(t.dirs[j] == t.dirs[k]);
                assert(false);
            }
            assert(t.dirs.contains(p)) by {
                if j < nd {
                    assert(t.dirs[j] == p);
                }
            }
            let c = p.subrange(0, (d.len() + 1) as int);
            law::dir_stands(t, p, d.len() + 1);
            let o = choose|o: int| 0 <= o < t.dirs.len() && t.dirs[o] == c;
            assert(c.drop_last() =~= d) by {
                assert(c.drop_last() =~= p.subrange(0, d.len() as int));
            }
            let x = law::subs_complete(t, d, t.dirs.len(), o);
            assert(leads(t.dirs[o], p)) by {
                assert(p.subrange(0, c.len() as int) =~= c);
            }
            assert(met_at(t, k, x, j));
        }
    }
}

/// The items met so far in the directory at `k`, beside those in `s`.
pub open spec fn so_far(t: tree::Tree, k: int, i: int, s: Set<int>) -> Set<int> {
    Set::new(|j: int| s.contains(j) || met(t, k, i, j))
}

/// The walk over a directory meets what lies in it, and nothing else.
proof fn walk_ok(
    m: read::Media,
    f: plan::Shape,
    t: tree::Tree,
    k: int,
    path: Seq<char>,
    w: read::Walk,
    s: Set<int>,
) -> (r: Set<int>)
    requires
        law::carries(m, f, t),
        forall|d: int| 0 <= d < t.dirs.len() ==> (#[trigger] t.dirs[d]).len() <= read::MAX_DEPTH,
        0 <= k < t.dirs.len(),
        stands_at(f, t, s, w),
        forall|j: int| s.contains(j) ==> !under(t, k, j),
    ensures
        ({
            let x = read::walked(m, law::pointer(f, t, k), path, t.dirs[k].len(), w);
            &&& x is Ok
            &&& stands_at(f, t, r, x->Ok_0)
            &&& forall|j: int| r.contains(j) <==> s.contains(j) || under(t, k, j)
        }),
    decreases read::MAX_DEPTH + 1 - t.dirs[k].len(), 1int, 0int,
{
    law::entries_of_dir(m, f, t, k);
    let r = walk_from_ok(m, f, t, k, 0, path, w, s, s);
    assert forall|j: int| r.contains(j) <==> s.contains(j) || under(t, k, j) by {
        met_all(t, k, j);
    }
    r
}

proof fn walk_from_ok(
    m: read::Media,
    f: plan::Shape,
    t: tree::Tree,
    k: int,
    i: int,
    path: Seq<char>,
    w: read::Walk,
    base: Set<int>,
    s: Set<int>,
) -> (r: Set<int>)
    requires
        law::carries(m, f, t),
        forall|d: int| 0 <= d < t.dirs.len() ==> (#[trigger] t.dirs[d]).len() <= read::MAX_DEPTH,
        0 <= k < t.dirs.len(),
        0 <= i <= plan::subs_at(t, k).len() + plan::leaves_at(t, k).len(),
        stands_at(f, t, s, w),
        forall|j: int| base.contains(j) ==> !under(t, k, j),
        forall|j: int| #[trigger] s.contains(j) <==> base.contains(j) || met(t, k, i, j),
    ensures
        ({
            let x = read::walked_from(m, law::founds(f, t, k), i, path, t.dirs[k].len(), w);
            &&& x is Ok
            &&& stands_at(f, t, r, x->Ok_0)
            &&& forall|j: int|
                #[trigger] r.contains(j) <==> base.contains(j) || met(
                    t,
                    k,
                    (plan::subs_at(t, k).len() + plan::leaves_at(t, k).len()) as int,
                    j,
                )
        }),
    decreases
            read::MAX_DEPTH + 1 - t.dirs[k].len(),
            0int,
            plan::subs_at(t, k).len() + plan::leaves_at(t, k).len() - i,
{
    let subs = plan::subs_at(t, k);
    let leaves = plan::leaves_at(t, k);
    let es = law::founds(f, t, k);
    let nd = t.dirs.len();
    assert(es.len() == subs.len() + leaves.len());
    if i < es.len() {
        let here = path + "/"@ + es[i].name;
        let it = if i < subs.len() {
            subs[i]
        } else {
            nd + leaves[i - subs.len()]
        };
        if i < subs.len() {
            sub_leads(t, k, i);
            assert(es[i] == law::dir_found(f, t, it));
        } else {
            leaf_lies(t, k, i - subs.len());
            assert(es[i] == law::file_found(f, t, it - nd));
        }
        assert(met_at(t, k, i, it));
        assert(under(t, k, it));
        assert(!s.contains(it)) by {
            if s.contains(it) {
                let x = choose|x: int| 0 <= x < i && met_at(t, k, x, it);
                met_apart(t, k, x, i, it);
            }
        }
        visit_ok(m, f, t, s, w, it, here);
        let w1 = read::visited(m, es[i], here, w)->Ok_0;
        let s1 = s.insert(it);
        if i < subs.len() {
            assert forall|j: int| s1.contains(j) implies !under(t, it, j) by {
                if under(t, it, j) {
                    assert(met_at(t, k, i, j));
                    if j == it {
                    } else if base.contains(j) {
                        let p = if j < nd {
                            t.dirs[j]
                        } else {
                            t.files[j - nd].dir
                        };
                        leads_on(t.dirs[k], t.dirs[it], p);
                        if j == k {
                            assert(t.dirs[it].len() <= t.dirs[k].len());
                        }
                        assert(under(t, k, j));
                    } else {
                        let x = choose|x: int| 0 <= x < i && met_at(t, k, x, j);
                        met_apart(t, k, x, i, j);
                    }
                }
            }
            let s2 = walk_ok(m, f, t, it, here, w1, s1);
            let w2 = read::walked(m, Some(es[i].first), here, t.dirs[k].len() + 1, w1)->Ok_0;
            assert forall|j: int| #[trigger] s2.contains(j) <==> base.contains(j) || met(t, k, i + 1, j) by {
                met_grows(t, k, i, j);
            }
            walk_from_ok(m, f, t, k, i + 1, path, w2, base, s2)
        } else {
            assert forall|j: int| #[trigger] s1.contains(j) <==> base.contains(j) || met(t, k, i + 1, j) by {
                met_grows(t, k, i, j);
            }
            walk_from_ok(m, f, t, k, i + 1, path, w1, base, s1)
        }
    } else {
        s
    }
}

proof fn met_grows(t: tree::Tree, k: int, i: int, j: int)
    requires
        0 <= i,
    ensures
        met(t, k, i + 1, j) <==> met(t, k, i, j) || met_at(t, k, i, j),
{
    if met(t, k, i + 1, j) {
        let x = choose|x: int| 0 <= x < i + 1 && met_at(t, k, x, j);
        if x < i {
            assert(met(t, k, i, j));
        }
    }
    if met(t, k, i, j) {
        let x = choose|x: int| 0 <= x < i && met_at(t, k, x, j);
        assert(0 <= x < i + 1 && met_at(t, k, x, j));
    }
}

/// The cluster of some item.
proof fn owner_of(f: plan::Shape, t: tree::Tree, c: int, n: nat) -> (j: int)
    requires
        f.cluster > 0,
        2 <= c < plan::start(f, t, n),
    ensures
        0 <= j < n,
        taken_by(f, t, j, c),
    decreases n,
{
    if n == 0 {
        0
    } else if c < plan::start(f, t, (n - 1) as nat) {
        owner_of(f, t, c, (n - 1) as nat)
    } else {
        n - 1
    }
}

proof fn tables_agree(m: read::Media, f: plan::Shape, t: tree::Tree, c: int, copy: int)
    requires
        law::carries(m, f, t),
        0 <= c < m.clusters + 2,
        0 <= copy,
    ensures
        !read::differs(m, c, copy),
    decreases m.fats - copy,
{
    if copy < m.fats {
        assert(read::table(m, copy, c) == law::told(f, t, c));
        assert(read::table(m, 0, c) == law::told(f, t, c));
        tables_agree(m, f, t, c, copy + 1);
    }
}

proof fn nothing_lost(m: read::Media, f: plan::Shape, t: tree::Tree, seen: Seq<bool>, c: int)
    requires
        law::carries(m, f, t),
        2 <= c <= m.clusters + 2,
        seen.len() == m.clusters + 2,
        forall|x: int|
            2 <= x < seen.len() ==> (#[trigger] seen[x] <==> x < plan::start(f, t, t.dirs.len() + t.files.len())),
    ensures
        ({
            let end = plan::start(f, t, t.dirs.len() + t.files.len());
            read::rest(m, seen, c) == (read::Rest {
                lost: 0,
                differ: 0,
                free: if c <= end {
                    0
                } else {
                    c - end
                },
            })
        }),
    decreases c,
{
    let all = t.dirs.len() + t.files.len();
    let end = plan::start(f, t, all);
    law::start_within(f, t, all);
    if c > 2 {
        nothing_lost(m, f, t, seen, c - 1);
        let x = c - 1;
        assert(read::table(m, 0, x) == law::told(f, t, x));
        tables_agree(m, f, t, x, 1);
        plan::cells_len(f, t, all);
        if x < end {
            let j = owner_of(f, t, x, all);
            law::cell_at(f, t, j as nat, all, x - plan::start(f, t, j as nat));
            law::start_within(f, t, j as nat);
        }
    }
}

proof fn trues_of_prefix(s: Seq<bool>, end: int, k: nat)
    requires
        2 <= end <= s.len(),
        k <= s.len(),
        forall|c: int| 0 <= c < s.len() ==> (#[trigger] s[c] <==> 2 <= c < end),
    ensures
        read::trues(s, k) == if k <= 2 {
            0
        } else if k <= end {
            k - 2
        } else {
            end - 2
        },
    decreases k,
{
    if k > 0 {
        trues_of_prefix(s, end, (k - 1) as nat);
    }
}

proof fn marked_run(seen: Seq<bool>, first: int, n: nat, k: nat)
    requires
        k <= n,
        0 <= first,
        first + n <= seen.len(),
        forall|c: int| 0 <= c < seen.len() ==> !#[trigger] seen[c],
    ensures
        read::marked(seen, law::run(first, n as int), k).len() == seen.len(),
        forall|c: int|
            0 <= c < seen.len() ==> (#[trigger] read::marked(seen, law::run(first, n as int), k)[c] <==> first <= c
                < first + k),
    decreases k,
{
    if k > 0 {
        marked_run(seen, first, n, (k - 1) as nat);
        assert(law::run(first, n as int)[k - 1] == first + (k - 1));
    }
}

proof fn trues_of_none(s: Seq<bool>, k: nat)
    requires
        k <= s.len(),
        forall|c: int| 0 <= c < s.len() ==> !#[trigger] s[c],
    ensures
        read::trues(s, k) == 0,
    decreases k,
{
    if k > 0 {
        trues_of_none(s, (k - 1) as nat);
    }
}

/// A volume that carries a plan checks clean: the walk meets every file and every directory,
/// every cluster is claimed or free, nothing is lost, and the tables agree. Directories nested
/// deeper than a walk descends are refused by it, so there are none.
pub(crate) proof fn carried_plans_check_clean(m: read::Media, f: plan::Shape, t: tree::Tree)
    requires
        law::carries(m, f, t),
        forall|d: int| 0 <= d < t.dirs.len() ==> (#[trigger] t.dirs[d]).len() <= read::MAX_DEPTH,
    ensures
        ({
            let x = read::surveyed(m);
            let end = plan::start(f, t, t.dirs.len() + t.files.len());
            &&& x is Ok
            &&& x->Ok_0.files == t.files.len()
            &&& x->Ok_0.dirs == t.dirs.len() - 1
            &&& x->Ok_0.claimed == end - 2
            &&& read::rest(m, x->Ok_0.seen, m.clusters + 2) == (read::Rest {
                lost: 0,
                differ: 0,
                free: m.clusters + 2 - end,
            })
        }),
{
    let nd = t.dirs.len();
    let all = nd + t.files.len();
    let none = read::unclaimed(m);
    let n = plan::need(f, t, 0);
    plan::need_is_natural(f, t, 0);
    law::start_within(f, t, 0);
    law::start_within(f, t, 1);
    law::start_within(f, t, all);
    assert(plan::start(f, t, 0) == 2);
    assert(plan::start(f, t, 1) == plan::start(f, t, 0) + n);
    let s = set![0int];
    let file = |j: int| j >= nd;
    let dir = |j: int| 0 < j < nd;
    assert(s.filter(file) =~= Set::<int>::empty());
    assert(s.filter(dir) =~= Set::<int>::empty());
    let seen = if m.wide {
        read::marked(none, law::run(2, n), n as nat)
    } else {
        none
    };
    let w = read::Walk { seen, files: 0, dirs: 0, claimed: n };
    if m.wide {
        plan::contents_len(f, t, 0);
        law::chain_of_item(m, f, t, 0, 0);
        assert(law::run(2, 0) =~= seq![]);
        marked_run(none, 2, n as nat, n as nat);
        trues_of_prefix(seen, 2 + n, seen.len());
        assert(law::run(2, n).len() == n);
    } else {
        trues_of_none(none, none.len());
    }
    assert forall|c: int| 0 <= c < seen.len() implies (#[trigger] seen[c] <==> exists|j: int|
        s.contains(j) && taken_by(f, t, j, c)) by {
        if seen[c] {
            assert(s.contains(0) && taken_by(f, t, 0, c));
        }
    }
    assert(stands_at(f, t, s, w));
    let r = walk_ok(m, f, t, 0, ""@, w, s);
    let x = read::walked(m, None, ""@, 0, w)->Ok_0;
    assert(t.dirs[0] =~= seq![]);
    assert forall|j: int| r.contains(j) <==> 0 <= j < all by {
        let p = if j < nd {
            t.dirs[j]
        } else {
            t.files[j - nd].dir
        };
        assert(p.subrange(0, 0) =~= t.dirs[0]);
    }
    assert(r.filter(file) =~= vstd::set_lib::set_int_range(nd as int, all as int));
    assert(r.filter(dir) =~= vstd::set_lib::set_int_range(1, nd as int));
    vstd::set_lib::lemma_int_range(nd as int, all as int);
    vstd::set_lib::lemma_int_range(1, nd as int);
    let end = plan::start(f, t, all);
    assert forall|c: int| 0 <= c < x.seen.len() implies (#[trigger] x.seen[c] <==> 2 <= c < end) by {
        if x.seen[c] {
            let j = choose|j: int| r.contains(j) && taken_by(f, t, j, c);
            plan::start_grows(f, t, 0, j as nat);
            plan::start_grows(f, t, (j + 1) as nat, all);
        }
        if 2 <= c < end {
            let j = owner_of(f, t, c, all);
            assert(r.contains(j) && taken_by(f, t, j, c));
        }
    }
    trues_of_prefix(x.seen, end, x.seen.len());
    nothing_lost(m, f, t, x.seen, m.clusters + 2);
}

} // verus!
