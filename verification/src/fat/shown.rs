//! What a walk that finds nothing wrong shows of a volume.

use vstd::prelude::*;

use crate::fat::plan;
use crate::fat::read;

verus! {

/// Every entry below a directory, in the order of a walk: the entries of a directory follow its own.
pub open spec fn met(m: read::Media, dir: Option<int>, depth: nat) -> Seq<read::Found>
    decreases 2 * (read::MAX_DEPTH + 2 - depth) + 1, 0int,
{
    if depth > read::MAX_DEPTH {
        seq![]
    } else {
        match read::entries(m, dir) {
            Err(_) => seq![],
            Ok(es) => met_from(m, es, 0, depth),
        }
    }
}

/// The entries from `i` on of a directory, and what is below them.
pub open spec fn met_from(m: read::Media, es: Seq<read::Found>, i: int, depth: nat) -> Seq<read::Found>
    decreases 2 * (read::MAX_DEPTH + 2 - depth), es.len() - i,
{
    if i < 0 || i >= es.len() || depth > read::MAX_DEPTH {
        seq![]
    } else {
        seq![es[i]] + (if es[i].dir {
            met(m, Some(es[i].first), depth + 1)
        } else {
            seq![]
        }) + met_from(m, es, i + 1, depth)
    }
}

/// The clusters of an entry.
pub open spec fn clusters_of(m: read::Media, e: read::Found) -> Seq<int> {
    if e.first == 0 {
        seq![]
    } else {
        read::chain(m, e.first, seq![])->Ok_0
    }
}

/// Whether a cluster can be part of a file: it is on the volume, and neither free nor bad.
pub open spec fn is_used(m: read::Media, c: int) -> bool {
    2 <= c < m.clusters + 2 && read::table(m, 0, c) != 0 && read::table(m, 0, c) != read::bad_mark(m.wide)
}

/// Whether an entry stands on its own: its chain ends, through clusters that can be part of a file,
/// none of them twice, and holds as much as the entry says. A directory has clusters.
pub open spec fn stands(m: read::Media, e: read::Found) -> bool {
    let cs = clusters_of(m, e);
    &&& e.first != 0 ==> read::chain(m, e.first, seq![]) is Ok
    &&& e.dir ==> e.first != 0
    &&& forall|k: int| 0 <= k < cs.len() ==> is_used(m, #[trigger] cs[k])
    &&& forall|k: int, l: int| 0 <= k < l < cs.len() ==> #[trigger] cs[k] != #[trigger] cs[l]
    &&& !e.dir ==> if e.first == 0 {
        e.size == 0
    } else {
        plan::cover(e.size, m.cluster_size) <= cs.len()
    }
}

/// Whether no cluster belongs to two entries.
pub open spec fn apart(m: read::Media, all: Seq<read::Found>) -> bool {
    forall|a: int, b: int, c: int|
        0 <= a < b < all.len() && #[trigger] clusters_of(m, all[a]).contains(c) ==> !(
        #[trigger] clusters_of(m, all[b]).contains(c))
}

/// How many of the first `n` entries are directories.
pub open spec fn dirs_in(all: Seq<read::Found>, n: nat) -> int
    decreases n,
{
    if n == 0 {
        0
    } else {
        dirs_in(all, (n - 1) as nat) + if all[n - 1].dir {
            1int
        } else {
            0int
        }
    }
}

/// Whether the entries of `all` are what is claimed between `before` and `after`.
spec fn claimed_by(m: read::Media, all: Seq<read::Found>, before: read::Walk, after: read::Walk) -> bool {
    &&& after.seen.len() == before.seen.len()
    &&& forall|c: int| 0 <= c < before.seen.len() && before.seen[c] ==> #[trigger] after.seen[c]
    &&& forall|k: int| 0 <= k < all.len() ==> stands(m, #[trigger] all[k])
    &&& forall|k: int, c: int|
        0 <= k < all.len() && #[trigger] clusters_of(m, all[k]).contains(c) ==> !before.seen[c] && after.seen[c]
    &&& apart(m, all)
    &&& after.dirs == before.dirs + dirs_in(all, all.len())
    &&& after.files == before.files + all.len() - dirs_in(all, all.len())
}

proof fn chains_are_used(m: read::Media, cluster: int, got: Seq<int>)
    requires
        read::chain(m, cluster, got) is Ok,
        forall|k: int| 0 <= k < got.len() ==> is_used(m, #[trigger] got[k]),
    ensures
        forall|k: int|
            0 <= k < read::chain(m, cluster, got)->Ok_0.len() ==> is_used(
                m,
                #[trigger] read::chain(m, cluster, got)->Ok_0[k],
            ),
    decreases m.clusters + 1 - got.len(),
{
    let value = read::table(m, 0, cluster);
    let next = got.push(cluster);
    assert forall|k: int| 0 <= k < next.len() implies is_used(m, #[trigger] next[k]) by {
        if k < got.len() {
            assert(next[k] == got[k]);
        }
    }
    if value < read::chain_end(m.wide) {
        chains_are_used(m, value, next);
    }
}

proof fn claims_are_new(seen: Seq<bool>, cs: Seq<int>, i: int)
    requires
        0 <= i <= cs.len(),
        read::claim(seen, cs, i) is Ok,
        forall|k: int| 0 <= k < cs.len() ==> 0 <= #[trigger] cs[k] < seen.len(),
    ensures
        ({
            let after = read::claim(seen, cs, i)->Ok_0;
            &&& after.len() == seen.len()
            &&& forall|c: int| 0 <= c < seen.len() && seen[c] ==> #[trigger] after[c]
            &&& forall|k: int| i <= k < cs.len() ==> !seen[#[trigger] cs[k]] && after[cs[k]]
            &&& forall|k: int, l: int| i <= k < l < cs.len() ==> #[trigger] cs[k] != #[trigger] cs[l]
        }),
    decreases cs.len() - i,
{
    if i < cs.len() {
        let next = seen.update(cs[i], true);
        claims_are_new(next, cs, i + 1);
        let after = read::claim(seen, cs, i)->Ok_0;
        assert forall|c: int| 0 <= c < seen.len() && seen[c] implies #[trigger] after[c] by {
            assert(next[c]);
        }
        assert(next[cs[i]]);
        assert forall|k: int| i <= k < cs.len() implies !seen[#[trigger] cs[k]] && after[cs[k]] by {
            if k > i {
                assert(!next[cs[k]]);
            }
        }
        assert forall|k: int, l: int| i <= k < l < cs.len() implies #[trigger] cs[k] != #[trigger] cs[l] by {
            assert(!next[cs[l]]);
        }
    }
}

proof fn dirs_add(a: Seq<read::Found>, b: Seq<read::Found>, n: nat)
    requires
        n <= b.len(),
    ensures
        dirs_in(a + b, a.len() + n) == dirs_in(a, a.len()) + dirs_in(b, n),
    decreases n,
{
    if n > 0 {
        dirs_add(a, b, (n - 1) as nat);
        assert((a + b)[a.len() + n - 1] == b[n - 1]);
    } else {
        dirs_of_front(a, b, a.len());
    }
}

proof fn dirs_of_front(a: Seq<read::Found>, b: Seq<read::Found>, n: nat)
    requires
        n <= a.len(),
    ensures
        dirs_in(a + b, n) == dirs_in(a, n),
    decreases n,
{
    if n > 0 {
        dirs_of_front(a, b, (n - 1) as nat);
        assert((a + b)[n - 1] == a[n - 1]);
    }
}

/// What is claimed in one part of a walk and then in another is claimed in both together.
proof fn claims_follow(
    m: read::Media,
    a: Seq<read::Found>,
    b: Seq<read::Found>,
    x: read::Walk,
    y: read::Walk,
    z: read::Walk,
)
    requires
        claimed_by(m, a, x, y),
        claimed_by(m, b, y, z),
        x.seen.len() == m.clusters + 2,
    ensures
        claimed_by(m, a + b, x, z),
{
    let all = a + b;
    assert forall|k: int| 0 <= k < all.len() implies stands(m, #[trigger] all[k]) by {
        if k < a.len() {
            assert(all[k] == a[k]);
        } else {
            assert(all[k] == b[k - a.len()]);
        }
    }
    assert forall|k: int, c: int|
        0 <= k < all.len() && #[trigger] clusters_of(m, all[k]).contains(c) implies !x.seen[c] && z.seen[c] by {
        assert(stands(m, all[k]));
        let p = choose|p: int| 0 <= p < clusters_of(m, all[k]).len() && clusters_of(m, all[k])[p] == c;
        assert(is_used(m, clusters_of(m, all[k])[p]));
        if k < a.len() {
            assert(all[k] == a[k]);
            assert(clusters_of(m, a[k]).contains(c));
        } else {
            assert(all[k] == b[k - a.len()]);
            assert(clusters_of(m, b[k - a.len()]).contains(c));
        }
    }
    assert forall|p: int, q: int, c: int|
        0 <= p < q < all.len() && #[trigger] clusters_of(m, all[p]).contains(c) implies !(
    #[trigger] clusters_of(m, all[q]).contains(c)) by {
        if clusters_of(m, all[q]).contains(c) {
            if q < a.len() {
                assert(all[p] == a[p] && all[q] == a[q]);
            } else if p >= a.len() {
                assert(all[p] == b[p - a.len()] && all[q] == b[q - a.len()]);
            } else {
                assert(all[p] == a[p] && all[q] == b[q - a.len()]);
                assert(clusters_of(m, a[p]).contains(c));
                assert(y.seen[c]);
                assert(clusters_of(m, b[q - a.len()]).contains(c));
            }
        }
    }
    dirs_add(a, b, b.len());
}

proof fn visits_claim(m: read::Media, e: read::Found, here: Seq<char>, w: read::Walk)
    requires
        read::fits(m),
        w.seen.len() == m.clusters + 2,
        read::visited(m, e, here, w) is Ok,
    ensures
        claimed_by(m, seq![e], w, read::visited(m, e, here, w)->Ok_0),
{
    let one = seq![e];
    let after = read::visited(m, e, here, w)->Ok_0;
    let cs = clusters_of(m, e);
    reveal_with_fuel(dirs_in, 2);
    if e.first != 0 {
        chains_are_used(m, e.first, seq![]);
        assert forall|k: int| 0 <= k < cs.len() implies 0 <= #[trigger] cs[k] < w.seen.len() by {
            assert(is_used(m, cs[k]));
        }
        claims_are_new(w.seen, cs, 0);
    }
    assert(stands(m, e));
    assert forall|k: int, c: int| 0 <= k < one.len() && #[trigger] clusters_of(m, one[k]).contains(c) implies !w.seen[c]
        && after.seen[c] by {
        let p = choose|p: int| 0 <= p < cs.len() && cs[p] == c;
        assert(cs[p] == c);
    }
}

proof fn walks_claim(m: read::Media, dir: Option<int>, path: Seq<char>, depth: nat, w: read::Walk)
    requires
        read::fits(m),
        w.seen.len() == m.clusters + 2,
        read::walked(m, dir, path, depth, w) is Ok,
    ensures
        claimed_by(m, met(m, dir, depth), w, read::walked(m, dir, path, depth, w)->Ok_0),
    decreases 2 * (read::MAX_DEPTH + 2 - depth) + 1, 0int,
{
    let es = read::entries(m, dir)->Ok_0;
    walks_from_claim(m, es, 0, path, depth, w);
}

proof fn walks_from_claim(m: read::Media, es: Seq<read::Found>, i: int, path: Seq<char>, depth: nat, w: read::Walk)
    requires
        read::fits(m),
        w.seen.len() == m.clusters + 2,
        read::walked_from(m, es, i, path, depth, w) is Ok,
    ensures
        claimed_by(m, met_from(m, es, i, depth), w, read::walked_from(m, es, i, path, depth, w)->Ok_0),
    decreases 2 * (read::MAX_DEPTH + 2 - depth), es.len() - i,
{
    if !(i < 0 || i >= es.len() || depth > read::MAX_DEPTH) {
        let e = es[i];
        let here = path + "/"@ + e.name;
        let end = read::walked_from(m, es, i, path, depth, w)->Ok_0;
        visits_claim(m, e, here, w);
        let w1 = read::visited(m, e, here, w)->Ok_0;
        if e.dir {
            walks_claim(m, Some(e.first), here, depth + 1, w1);
            let below = met(m, Some(e.first), depth + 1);
            let w2 = read::walked(m, Some(e.first), here, depth + 1, w1)->Ok_0;
            claims_follow(m, seq![e], below, w, w1, w2);
            walks_from_claim(m, es, i + 1, path, depth, w2);
            claims_follow(m, seq![e] + below, met_from(m, es, i + 1, depth), w, w2, end);
        } else {
            walks_from_claim(m, es, i + 1, path, depth, w1);
            assert(seq![e] + Seq::<read::Found>::empty() =~= seq![e]);
            claims_follow(m, seq![e], met_from(m, es, i + 1, depth), w, w1, end);
        }
    }
}

proof fn marks_stand(seen: Seq<bool>, cs: Seq<int>, k: nat)
    requires
        k <= cs.len(),
        forall|j: int| 0 <= j < cs.len() ==> 0 <= #[trigger] cs[j] < seen.len(),
    ensures
        read::marked(seen, cs, k).len() == seen.len(),
        forall|j: int| 0 <= j < k ==> read::marked(seen, cs, k)[#[trigger] cs[j]],
    decreases k,
{
    if k > 0 {
        marks_stand(seen, cs, (k - 1) as nat);
    }
}

/// A volume that a walk finds nothing wrong with is consistent: every file and directory on it has a
/// chain that ends, on the volume, through no free or bad cluster and no cluster twice; no cluster
/// belongs to two of them, nor to one of them and to a root that is a chain; no file is longer than
/// its chain; and they are counted right.
pub proof fn checked_volumes_are_consistent(m: read::Media)
    requires
        read::fits(m),
        read::surveyed(m) is Ok,
    ensures
        ({
            let all = met(m, None, 0);
            let w = read::surveyed(m)->Ok_0;
            &&& forall|k: int| 0 <= k < all.len() ==> stands(m, #[trigger] all[k])
            &&& apart(m, all)
            &&& w.dirs == dirs_in(all, all.len())
            &&& w.files == all.len() - dirs_in(all, all.len())
            &&& m.wide ==> (read::chain(m, m.root, seq![]) matches Ok(cs) && forall|j: int, k: int|
                0 <= j < cs.len() && 0 <= k < all.len() ==> is_used(m, #[trigger] cs[j]) && !clusters_of(
                    m,
                    #[trigger] all[k],
                ).contains(cs[j]))
        }),
{
    let all = met(m, None, 0);
    let w = read::Walk { seen: read::unclaimed(m), files: 0, dirs: 0, claimed: 0 };
    if m.wide {
        let cs = read::chain(m, m.root, seq![])->Ok_0;
        chains_are_used(m, m.root, seq![]);
        assert forall|j: int| 0 <= j < cs.len() implies 0 <= #[trigger] cs[j] < w.seen.len() by {
            assert(is_used(m, cs[j]));
        }
        marks_stand(w.seen, cs, cs.len());
        let start = read::Walk { seen: read::marked(w.seen, cs, cs.len()), claimed: cs.len() as int, ..w };
        walks_claim(m, None, ""@, 0, start);
        assert forall|j: int, k: int| 0 <= j < cs.len() && 0 <= k < all.len() implies is_used(m, #[trigger] cs[j])
            && !clusters_of(m, #[trigger] all[k]).contains(cs[j]) by {
            assert(start.seen[cs[j]]);
        }
    } else {
        walks_claim(m, None, ""@, 0, w);
    }
}

} // verus!
