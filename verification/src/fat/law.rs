//! A written volume reads back: what a plan places is what a reader finds.

use vstd::prelude::*;

use super::names;
use super::order;
use super::plan;
use super::read;
use super::sound;
use super::tree;
use crate::bytes;
use crate::fat16;
use crate::text;

verus! {

/// Whether a volume carries a plan: its tables say what the plan's table says, and its clusters
/// hold what the plan places in them.
pub open spec fn carries(m: read::Media, f: plan::Shape, t: tree::Tree) -> bool {
    let all = t.dirs.len() + t.files.len();
    let laid = plan::laid(f, t, all);
    &&& read::fits(m)
    &&& m.wide == f.wide
    &&& m.cluster_size == f.cluster
    &&& m.clusters == f.clusters
    &&& m.clusters < if f.wide {
        0x0FFF_FFF5int
    } else {
        0xFFF5int
    }
    &&& sound::well_planted(t)
    &&& f.label.len() == 11
    &&& f.label[0] != 0
    &&& plan::wrong(f, t) is None
    &&& forall|k: int, c: int|
        0 <= k < m.fats && 0 <= c < m.clusters + 2 ==> #[trigger] read::table(m, k, c) == told(f, t, c)
    &&& m.bytes.subrange(m.data_start, m.data_start + laid.len()) == laid
    &&& !m.wide ==> {
        let root = plan::dir_bytes(f, t, 0);
        &&& m.root_entries == f.root_max
        &&& m.bytes.subrange(m.root_start, m.root_start + m.root_entries * 32) == plan::padded(
            root,
            m.root_entries * 32,
        )
    }
    &&& m.wide ==> m.root == 2
}

/// What the plan's table says of a cluster.
pub open spec fn told(f: plan::Shape, t: tree::Tree, c: int) -> int {
    let cells = plan::cells(f, t, t.dirs.len() + t.files.len());
    if c < cells.len() {
        cells[c]
    } else {
        0
    }
}

/// The clusters from `first` on.
pub open spec fn run(first: int, n: int) -> Seq<int> {
    Seq::new(n as nat, |i: int| first + i)
}

pub(crate) proof fn cell_at(f: plan::Shape, t: tree::Tree, j: nat, n: nat, i: int)
    requires
        f.cluster > 0,
        j < n,
        0 <= i < plan::need(f, t, j as int),
    ensures
        plan::start(f, t, j) + i < plan::cells(f, t, n).len(),
        plan::cells(f, t, n)[plan::start(f, t, j) + i] == if i + 1 == plan::need(f, t, j as int) {
            plan::end_mark(f.wide)
        } else {
            plan::start(f, t, j) + i + 1
        },
    decreases n,
{
    plan::cells_len(f, t, n);
    plan::cells_len(f, t, (n - 1) as nat);
    plan::start_grows(f, t, 0, j);
    plan::start_grows(f, t, (j + 1) as nat, n);
    plan::need_is_natural(f, t, n - 1);
    if j < n - 1 {
        cell_at(f, t, j, (n - 1) as nat, i);
    }
}

pub(crate) proof fn start_within(f: plan::Shape, t: tree::Tree, j: nat)
    requires
        f.cluster > 0,
        plan::wrong(f, t) is None,
        j <= t.dirs.len() + t.files.len(),
    ensures
        2 <= plan::start(f, t, j) <= f.clusters + 2,
{
    let all = t.dirs.len() + t.files.len();
    plan::start_grows(f, t, 0, j);
    plan::start_grows(f, t, j, all);
    if t.files.len() > 0 {
        plan::nothing_wrong(f, t, 0, t.files.len() - 1);
    }
}

/// The chain of an item is its run of clusters.
pub(crate) proof fn chain_of_item(m: read::Media, f: plan::Shape, t: tree::Tree, j: nat, i: int)
    requires
        carries(m, f, t),
        j < t.dirs.len() + t.files.len(),
        0 <= i < plan::need(f, t, j as int),
    ensures
        read::chain(m, plan::start(f, t, j) + i, run(plan::start(f, t, j), i)) == Ok::<Seq<int>, Seq<char>>(
            run(plan::start(f, t, j), plan::need(f, t, j as int)),
        ),
    decreases plan::need(f, t, j as int) - i,
{
    let all = t.dirs.len() + t.files.len();
    let s = plan::start(f, t, j);
    let n = plan::need(f, t, j as int);
    start_within(f, t, j);
    start_within(f, t, (j + 1) as nat);
    cell_at(f, t, j, all, i);
    let c = s + i;
    assert(read::table(m, 0, c) == told(f, t, c));
    assert(run(s, i).push(c) =~= run(s, i + 1));
    if i + 1 < n {
        chain_of_item(m, f, t, j, i + 1);
    }
}

proof fn laid_at(f: plan::Shape, t: tree::Tree, j: nat, n: nat)
    requires
        f.cluster > 0,
        f.label.len() == 11,
        plan::tree_sound(t),
        j < n <= t.dirs.len() + t.files.len(),
        plan::need(f, t, j as int) > 0,
    ensures
        ({
            let at = (plan::start(f, t, j) - 2) * f.cluster;
            let size = plan::need(f, t, j as int) * f.cluster;
            &&& 0 <= at
            &&& 0 <= size
            &&& at + size <= plan::laid(f, t, n).len()
            &&& plan::laid(f, t, n).subrange(at, at + size) == plan::padded(plan::contents(f, t, j as int), size)
        }),
    decreases n,
{
    let at = (plan::start(f, t, j) - 2) * f.cluster;
    let size = plan::need(f, t, j as int) * f.cluster;
    plan::laid_len(f, t, j);
    plan::laid_len(f, t, (j + 1) as nat);
    plan::laid_len(f, t, n);
    plan::laid_len(f, t, (n - 1) as nat);
    plan::need_is_natural(f, t, j as int);
    plan::contents_len(f, t, j as int);
    plan::start_grows(f, t, 0, j);
    let lead = plan::laid(f, t, (n - 1) as nat);
    let whole = plan::laid(f, t, n);
    if j < n - 1 {
        laid_at(f, t, j, (n - 1) as nat);
        assert(whole.subrange(at, at + size) =~= lead.subrange(at, at + size));
    } else {
        assert(whole.subrange(at, at + size) =~= plan::padded(plan::contents(f, t, j as int), size));
    }
}

proof fn run_bytes(m: read::Media, first: int, k: nat, n: nat)
    requires
        read::fits(m),
        2 <= first,
        first + n <= m.clusters + 2,
        k <= n,
    ensures
        read::cluster_bytes(m, run(first, n as int), k) == m.bytes.subrange(
            read::cluster_at(m, first),
            read::cluster_at(m, first) + k * m.cluster_size,
        ),
        0 <= read::cluster_at(m, first),
        read::cluster_at(m, first) + k * m.cluster_size <= m.bytes.len(),
    decreases k,
{
    let at = read::cluster_at(m, first);
    assert((first - 2) * m.cluster_size >= 0 && (first - 2) * m.cluster_size + k * m.cluster_size <= m.clusters
        * m.cluster_size && k * m.cluster_size >= 0) by (nonlinear_arith)
        requires
            first >= 2,
            first - 2 + k <= m.clusters,
            m.cluster_size >= 0,
            k >= 0,
    ;
    assert(0 <= m.fats * m.fat_bytes) by (nonlinear_arith)
        requires
            m.fats >= 0,
            m.fat_bytes >= 0,
    ;
    if k > 0 {
        run_bytes(m, first, (k - 1) as nat, n);
        let c = first + (k - 1);
        assert(run(first, n as int)[k - 1] == c);
        assert((c - 2) * m.cluster_size == (first - 2) * m.cluster_size + (k - 1) * m.cluster_size) by (
        nonlinear_arith)
            requires
                c == first + (k - 1),
        ;
        assert((k - 1) * m.cluster_size + m.cluster_size == k * m.cluster_size) by (nonlinear_arith);
        assert(read::cluster_bytes(m, run(first, n as int), k) =~= m.bytes.subrange(at, at + k * m.cluster_size));
    } else {
        assert(0 * m.cluster_size == 0) by (nonlinear_arith);
        assert(m.bytes.subrange(at, at) =~= seq![]);
    }
}

pub(crate) proof fn part_of_part(raw: Seq<u8>, at: int, whole: Seq<u8>, x: int, y: int)
    requires
        0 <= at,
        at + whole.len() <= raw.len(),
        raw.subrange(at, at + whole.len()) == whole,
        0 <= x <= y <= whole.len(),
    ensures
        raw.subrange(at + x, at + y) == whole.subrange(x, y),
{
    let got = raw.subrange(at + x, at + y);
    let want = whole.subrange(x, y);
    assert forall|i: int| 0 <= i < y - x implies #[trigger] got[i] == want[i] by {
        assert(raw.subrange(at, at + whole.len())[x + i] == whole[x + i]);
    }
    assert(got =~= want);
}

/// The clusters of an item hold what the item holds.
pub(crate) proof fn bytes_of_item(m: read::Media, f: plan::Shape, t: tree::Tree, j: nat)
    requires
        carries(m, f, t),
        j < t.dirs.len() + t.files.len(),
        plan::need(f, t, j as int) > 0,
    ensures
        ({
            let n = plan::need(f, t, j as int);
            read::cluster_bytes(m, run(plan::start(f, t, j), n), n as nat) == plan::padded(
                plan::contents(f, t, j as int),
                n * f.cluster,
            )
        }),
{
    let all = t.dirs.len() + t.files.len();
    let s = plan::start(f, t, j);
    let n = plan::need(f, t, j as int);
    start_within(f, t, j);
    start_within(f, t, (j + 1) as nat);
    laid_at(f, t, j, all);
    run_bytes(m, s, n as nat, n as nat);
    let at = (s - 2) * f.cluster;
    let laid = plan::laid(f, t, all);
    plan::laid_len(f, t, all);
    start_within(f, t, all);
    assert(laid.len() <= m.clusters * m.cluster_size) by (nonlinear_arith)
        requires
            laid.len() == (plan::start(f, t, all) - 2) * f.cluster,
            plan::start(f, t, all) - 2 <= m.clusters,
            m.cluster_size == f.cluster,
            f.cluster > 0,
    ;
    assert(0 <= m.fats * m.fat_bytes) by (nonlinear_arith)
        requires
            m.fats >= 0,
            m.fat_bytes >= 0,
    ;
    part_of_part(m.bytes, m.data_start, laid, at, at + n * f.cluster);
}

// ---- directories ----

/// What a reader finds of the directory at `j`.
pub open spec fn dir_found(f: plan::Shape, t: tree::Tree, j: int) -> read::Found {
    read::Found { name: names::shown(t.dirs[j].last()), dir: true, first: plan::start(f, t, j as nat), size: 0 }
}

/// What a reader finds of the file at `j`.
pub open spec fn file_found(f: plan::Shape, t: tree::Tree, j: int) -> read::Found {
    read::Found {
        name: names::shown(t.files[j].name),
        dir: false,
        first: plan::first_cluster(f, t, t.dirs.len() + j),
        size: t.files[j].data.len() as int,
    }
}

/// What a reader finds in the directory at `k`.
pub open spec fn founds(f: plan::Shape, t: tree::Tree, k: int) -> Seq<read::Found> {
    let s = plan::subs_at(t, k);
    let l = plan::leaves_at(t, k);
    Seq::new(s.len(), |i: int| dir_found(f, t, s[i])) + Seq::new(l.len(), |i: int| file_found(f, t, l[i]))
}

/// Whether `e` stands at `i` in `raw`.
spec fn stands(raw: Seq<u8>, i: int, e: Seq<u8>) -> bool {
    0 <= i && i + 32 <= raw.len() && e.len() == 32 && raw.subrange(i, i + 32) == e
}

#[verifier::spinoff_prover]
#[verifier::rlimit(60)]
proof fn entry_fields(wide: bool, raw: Seq<u8>, i: int, name: Seq<u8>, attr: u8, cluster: int, size: int)
    requires
        name.len() == 11,
        stands(raw, i, plan::entry(wide, name, attr, cluster, size)),
        0 <= cluster < if wide {
            0x1_0000_0000int
        } else {
            0x1_0000int
        },
        0 <= size < 0x1_0000_0000,
    ensures
        raw[i] == name[0],
        raw[i + 11] == attr,
        raw.subrange(i, i + 8) == name.subrange(0, 8),
        raw.subrange(i + 8, i + 11) == name.subrange(8, 11),
        read::found(wide, raw, i).first == cluster,
        read::found(wide, raw, i).size == size,
{
    reveal(plan::entry);
    let e = plan::entry(wide, name, attr, cluster, size);
    let w = raw.subrange(i, i + 32);
    assert forall|k: int| 0 <= k < 32 implies raw[i + k] == #[trigger] e[k] by {
        assert(w[k] == e[k]);
    }
    assert(raw[i + 0] == e[0]);
    assert(raw.subrange(i, i + 8) =~= name.subrange(0, 8)) by {
        assert forall|k: int| 0 <= k < 8 implies #[trigger] raw.subrange(i, i + 8)[k] == name[k] by {
            assert(raw[i + k] == e[k]);
        }
    }
    assert(raw.subrange(i + 8, i + 11) =~= name.subrange(8, 11)) by {
        assert forall|k: int| 0 <= k < 3 implies #[trigger] raw.subrange(i + 8, i + 11)[k] == name[8 + k] by {
            assert(raw[i + (8 + k)] == e[8 + k]);
        }
    }
    let hi = bytes::le16_bytes(
        if wide {
            cluster / 0x1_0000
        } else {
            0
        },
    );
    let lo = bytes::le16_bytes(cluster % 0x1_0000);
    let sz = bytes::le32_bytes(size);
    assert(raw[i + 11] == e[11] && e[11] == attr);
    assert(raw[i + 20] == e[20] && e[20] == hi[0]);
    assert(raw[i + 21] == e[21] && e[21] == hi[1]);
    assert(raw[i + 26] == e[26] && e[26] == lo[0]);
    assert(raw[i + 27] == e[27] && e[27] == lo[1]);
    assert(raw[i + 28] == e[28] && e[28] == sz[0]);
    assert(raw[i + 29] == e[29] && e[29] == sz[1]);
    assert(raw[i + 30] == e[30] && e[30] == sz[2]);
    assert(raw[i + 31] == e[31] && e[31] == sz[3]);
}

proof fn named_entry(wide: bool, raw: Seq<u8>, i: int, name: Seq<u8>, attr: u8, cluster: int, size: int)
    requires
        name.len() == 11,
        sound::good_name(name),
        attr == plan::ATTR_DIRECTORY || attr == plan::ATTR_ARCHIVE,
        stands(raw, i, plan::entry(wide, name, attr, cluster, size)),
        0 <= cluster < if wide {
            0x1_0000_0000int
        } else {
            0x1_0000int
        },
        0 <= size < 0x1_0000_0000,
    ensures
        raw[i] != 0,
        !read::skipped(raw, i),
        read::found(wide, raw, i) == (read::Found {
            name: names::shown(name),
            dir: attr == plan::ATTR_DIRECTORY,
            first: cluster,
            size,
        }),
{
    entry_fields(wide, raw, i, name, attr, cluster, size);
    let c = choose|c: Seq<char>| fat16::stored(c) == Some(name);
    names::shown_of_stored(c);
    assert(text::ascii(name.subrange(0, 8)));
    assert(text::ascii(name.subrange(8, 11)));
    text::ascii_is_itself(name.subrange(0, 8));
    text::ascii_is_itself(name.subrange(8, 11));
    let base = read::base_of(raw, i);
    reveal_strlit(".");
    reveal_strlit("..");
    // A stored name holds no dot, so it is neither of the two every directory begins with.
    fat16::dot_bounds(c, 0);
    let b = fat16::stem(c);
    assert(fat16::name_char(b[0]));
    assert(base[0] == fat16::upper(b[0]) as char);
    assert(fat16::upper(b[0]) != 0x2e);
    assert(base[0] != '.');
}

proof fn dot_entry(wide: bool, raw: Seq<u8>, i: int, n: nat, cluster: int)
    requires
        n == 1 || n == 2,
        stands(raw, i, plan::entry(wide, plan::dots(n), plan::ATTR_DIRECTORY, cluster, 0)),
        0 <= cluster < if wide {
            0x1_0000_0000int
        } else {
            0x1_0000int
        },
    ensures
        raw[i] != 0,
        read::skipped(raw, i),
{
    let name = plan::dots(n);
    entry_fields(wide, raw, i, name, plan::ATTR_DIRECTORY, cluster, 0);
    reveal_strlit(".");
    reveal_strlit("..");
    assert(text::ascii(name.subrange(0, 8)));
    text::ascii_is_itself(name.subrange(0, 8));
    let want = if n == 1 {
        "."@
    } else {
        ".."@
    };
    assert(text::as_chars(name.subrange(0, 8)) =~= want + Seq::new((8 - n) as nat, |i: int| ' '));
    names::trim_padded(want, (8 - n) as nat);
}

proof fn sub_listing(f: plan::Shape, t: tree::Tree, raw: Seq<u8>, at: int, ids: Seq<int>, x: nat)
    requires
        f.cluster > 0,
        plan::wrong(f, t) is None,
        f.clusters < if f.wide {
            0x0FFF_FFF5int
        } else {
            0xFFF5int
        },
        sound::well_planted(t),
        forall|i: int| 0 <= i < ids.len() ==> 0 < #[trigger] ids[i] < t.dirs.len(),
        x <= ids.len(),
        0 <= at,
        at + 32 * ids.len() <= raw.len(),
        raw.subrange(at, at + 32 * ids.len()) == plan::dir_entries(f, t, ids, ids.len()),
    ensures
        read::listing(f.wide, raw, at + 32 * x) == Seq::new(
            (ids.len() - x) as nat,
            |i: int| dir_found(f, t, ids[x + i]),
        ) + read::listing(f.wide, raw, at + 32 * ids.len()),
    decreases ids.len() - x,
{
    let n = ids.len();
    let rest = read::listing(f.wide, raw, at + 32 * n);
    if x < n {
        let j = ids[x as int];
        let i = at + 32 * x;
        dir_entries_at(f, t, ids, x, n);
        start_within(f, t, j as nat);
        assert(t.dirs[j].len() > 0);
        part_of_part(raw, at, plan::dir_entries(f, t, ids, n), (32 * x) as int, (32 * x + 32) as int);
        named_entry(f.wide, raw, i, t.dirs[j].last(), plan::ATTR_DIRECTORY, plan::start(f, t, j as nat), 0);
        sub_listing(f, t, raw, at, ids, x + 1);
        let tail = Seq::new((n - x - 1) as nat, |k: int| dir_found(f, t, ids[x + 1 + k]));
        assert(Seq::new((n - x) as nat, |k: int| dir_found(f, t, ids[x + k])) =~= seq![dir_found(f, t, j)] + tail);
        assert(seq![dir_found(f, t, j)] + (tail + rest) =~= (seq![dir_found(f, t, j)] + tail) + rest);
    } else {
        assert(Seq::new(0, |k: int| dir_found(f, t, ids[x + k])) + rest =~= rest);
    }
}

proof fn dir_entries_at(f: plan::Shape, t: tree::Tree, ids: Seq<int>, x: nat, n: nat)
    requires
        plan::tree_sound(t),
        x < n <= ids.len(),
        forall|i: int| 0 <= i < ids.len() ==> 0 < #[trigger] ids[i] < t.dirs.len(),
    ensures
        plan::dir_entries(f, t, ids, n).len() == 32 * n,
        plan::dir_entry(f, t, ids[x as int]).len() == 32,
        plan::dir_entries(f, t, ids, n).subrange((32 * x) as int, (32 * x + 32) as int) == plan::dir_entry(
            f,
            t,
            ids[x as int],
        ),
    decreases n,
{
    plan::dir_entries_len(f, t, ids, n);
    plan::dir_entries_len(f, t, ids, (n - 1) as nat);
    let j = ids[x as int];
    assert(t.dirs[j].last().len() == 11);
    plan::entry_len(f.wide, t.dirs[j].last(), plan::ATTR_DIRECTORY, plan::start(f, t, j as nat), 0);
    let lead = plan::dir_entries(f, t, ids, (n - 1) as nat);
    let whole = plan::dir_entries(f, t, ids, n);
    if x < n - 1 {
        dir_entries_at(f, t, ids, x, (n - 1) as nat);
        assert(whole.subrange((32 * x) as int, (32 * x + 32) as int) =~= lead.subrange((32 * x) as int, (32 * x + 32) as int));
    } else {
        assert(whole.subrange((32 * x) as int, (32 * x + 32) as int) =~= plan::dir_entry(f, t, j));
    }
}

proof fn file_entries_at(f: plan::Shape, t: tree::Tree, ids: Seq<int>, x: nat, n: nat)
    requires
        plan::tree_sound(t),
        x < n <= ids.len(),
        forall|i: int| 0 <= i < ids.len() ==> 0 <= #[trigger] ids[i] < t.files.len(),
    ensures
        plan::file_entries(f, t, ids, n).len() == 32 * n,
        plan::file_entry(f, t, ids[x as int]).len() == 32,
        plan::file_entries(f, t, ids, n).subrange((32 * x) as int, (32 * x + 32) as int) == plan::file_entry(
            f,
            t,
            ids[x as int],
        ),
    decreases n,
{
    plan::file_entries_len(f, t, ids, n);
    plan::file_entries_len(f, t, ids, (n - 1) as nat);
    let j = ids[x as int];
    assert(t.files[j].name.len() == 11);
    plan::entry_len(
        f.wide,
        t.files[j].name,
        plan::ATTR_ARCHIVE,
        plan::first_cluster(f, t, t.dirs.len() + j),
        t.files[j].data.len() as int,
    );
    let lead = plan::file_entries(f, t, ids, (n - 1) as nat);
    let whole = plan::file_entries(f, t, ids, n);
    if x < n - 1 {
        file_entries_at(f, t, ids, x, (n - 1) as nat);
        assert(whole.subrange((32 * x) as int, (32 * x + 32) as int) =~= lead.subrange((32 * x) as int, (32 * x + 32) as int));
    } else {
        assert(whole.subrange((32 * x) as int, (32 * x + 32) as int) =~= plan::file_entry(f, t, j));
    }
}

proof fn leaf_listing(f: plan::Shape, t: tree::Tree, raw: Seq<u8>, at: int, ids: Seq<int>, x: nat)
    requires
        f.cluster > 0,
        plan::wrong(f, t) is None,
        f.clusters < if f.wide {
            0x0FFF_FFF5int
        } else {
            0xFFF5int
        },
        sound::well_planted(t),
        forall|i: int| 0 <= i < ids.len() ==> 0 <= #[trigger] ids[i] < t.files.len(),
        x <= ids.len(),
        0 <= at,
        at + 32 * ids.len() <= raw.len(),
        raw.subrange(at, at + 32 * ids.len()) == plan::file_entries(f, t, ids, ids.len()),
    ensures
        read::listing(f.wide, raw, at + 32 * x) == Seq::new(
            (ids.len() - x) as nat,
            |i: int| file_found(f, t, ids[x + i]),
        ) + read::listing(f.wide, raw, at + 32 * ids.len()),
    decreases ids.len() - x,
{
    let n = ids.len();
    let rest = read::listing(f.wide, raw, at + 32 * n);
    if x < n {
        let j = ids[x as int];
        let i = at + 32 * x;
        file_entries_at(f, t, ids, x, n);
        plan::nothing_wrong(f, t, 0, j);
        start_within(f, t, (t.dirs.len() + j) as nat);
        part_of_part(raw, at, plan::file_entries(f, t, ids, n), (32 * x) as int, (32 * x + 32) as int);
        named_entry(
            f.wide,
            raw,
            i,
            t.files[j].name,
            plan::ATTR_ARCHIVE,
            plan::first_cluster(f, t, t.dirs.len() + j),
            t.files[j].data.len() as int,
        );
        leaf_listing(f, t, raw, at, ids, x + 1);
        let tail = Seq::new((n - x - 1) as nat, |k: int| file_found(f, t, ids[x + 1 + k]));
        assert(Seq::new((n - x) as nat, |k: int| file_found(f, t, ids[x + k])) =~= seq![file_found(f, t, j)] + tail);
        assert(seq![file_found(f, t, j)] + (tail + rest) =~= (seq![file_found(f, t, j)] + tail) + rest);
    } else {
        assert(Seq::new(0, |k: int| file_found(f, t, ids[x + k])) + rest =~= rest);
    }
}

pub(crate) proof fn subs_are_named(t: tree::Tree, k: int)
    requires
        sound::well_planted(t),
        0 <= k < t.dirs.len(),
    ensures
        forall|i: int|
            0 <= i < plan::subs_at(t, k).len() ==> 0 < #[trigger] plan::subs_at(t, k)[i] < t.dirs.len() && plan::below(
                t.dirs[plan::subs_at(t, k)[i]],
                t.dirs[k],
            ),
        forall|i: int|
            0 <= i < plan::leaves_at(t, k).len() ==> 0 <= #[trigger] plan::leaves_at(t, k)[i] < t.files.len()
                && t.files[plan::leaves_at(t, k)[i]].dir == t.dirs[k],
{
    plan::subs_bounded(t, t.dirs[k], t.dirs.len());
    plan::leaves_bounded(t, t.dirs[k], t.files.len());
}

proof fn head_is_skipped(f: plan::Shape, t: tree::Tree, raw: Seq<u8>, k: int)
    requires
        f.cluster > 0,
        f.label.len() == 11,
        f.label[0] != 0,
        plan::wrong(f, t) is None,
        f.clusters < if f.wide {
            0x0FFF_FFF5int
        } else {
            0xFFF5int
        },
        sound::well_planted(t),
        0 <= k < t.dirs.len(),
        plan::head_entries(f, t, k).len() <= raw.len(),
        raw.subrange(0, plan::head_entries(f, t, k).len() as int) == plan::head_entries(f, t, k),
    ensures
        read::listing(f.wide, raw, 0) == read::listing(f.wide, raw, plan::head_entries(f, t, k).len() as int),
{
    start_within(f, t, k as nat);
    plan::head_len(f, t, k);
    plan::entry_len(f.wide, plan::dots(1), plan::ATTR_DIRECTORY, plan::start(f, t, k as nat), 0);
    let head = plan::head_entries(f, t, k);
    if k == 0 {
        entry_fields(f.wide, raw, 0, f.label, plan::ATTR_VOLUME_ID, 0, 0);
        assert(read::skipped(raw, 0));
    } else {
        let c = plan::start(f, t, k as nat);
        let p = plan::parent_cluster(f, t, k);
        assert(t.dirs.contains(t.dirs[k].drop_last()));
        plan::place_found(t.dirs, t.dirs[k].drop_last(), 0);
        start_within(f, t, plan::place(t.dirs, t.dirs[k].drop_last(), 0) as nat);
        let one = plan::entry(f.wide, plan::dots(1), plan::ATTR_DIRECTORY, c, 0);
        let two = plan::entry(f.wide, plan::dots(2), plan::ATTR_DIRECTORY, p, 0);
        assert(head.subrange(0, 32) =~= one);
        assert(head.subrange(32, 64) =~= two);
        part_of_part(raw, 0, head, 0, 32);
        part_of_part(raw, 0, head, 32, 64);
        dot_entry(f.wide, raw, 0, 1, c);
        dot_entry(f.wide, raw, 32, 2, p);
        assert(read::listing(f.wide, raw, 0) == read::listing(f.wide, raw, 32));
        assert(read::listing(f.wide, raw, 32) == read::listing(f.wide, raw, 64));
    }
}

/// What a directory holds, zeros behind it, lists as what is in it.
#[verifier::spinoff_prover]
#[verifier::rlimit(60)]
proof fn dir_listing(f: plan::Shape, t: tree::Tree, k: int, n: int)
    requires
        f.cluster > 0,
        f.label.len() == 11,
        f.label[0] != 0,
        plan::wrong(f, t) is None,
        f.clusters < if f.wide {
            0x0FFF_FFF5int
        } else {
            0xFFF5int
        },
        sound::well_planted(t),
        0 <= k < t.dirs.len(),
        plan::dir_bytes(f, t, k).len() <= n,
    ensures
        read::listing(f.wide, plan::padded(plan::dir_bytes(f, t, k), n), 0) == founds(f, t, k),
{
    plan::head_len(f, t, k);
    let d = plan::dir_bytes(f, t, k);
    let raw = plan::padded(d, n);
    let s = plan::subs_at(t, k);
    let l = plan::leaves_at(t, k);
    subs_are_named(t, k);
    plan::dir_bytes_len(f, t, k);
    plan::dir_entries_len(f, t, s, s.len());
    plan::file_entries_len(f, t, l, l.len());
    let head = plan::head_entries(f, t, k);
    let h = head.len() as int;
    let subs = plan::dir_entries(f, t, s, s.len());
    let leaves = plan::file_entries(f, t, l, l.len());
    let (a, b) = (h + 32 * s.len(), h + 32 * s.len() + 32 * l.len());
    slices(head, subs, leaves, (n - d.len()) as nat);
    head_is_skipped(f, t, raw, k);
    sub_listing(f, t, raw, h, s, 0);
    leaf_listing(f, t, raw, a, l, 0);
    let tail = read::listing(f.wide, raw, b);
    assert(b == d.len());
    end_lists_nothing(f.wide, raw, b);
    let fs = Seq::new(s.len(), |i: int| dir_found(f, t, s[0 + i]));
    let fl = Seq::new(l.len(), |i: int| file_found(f, t, l[0 + i]));
    assert(fs + (fl + tail) =~= founds(f, t, k));
}

/// A directory ends at its first free entry, or with its bytes.
proof fn end_lists_nothing(wide: bool, raw: Seq<u8>, at: int)
    requires
        0 <= at,
        at < raw.len() ==> raw[at] == 0,
    ensures
        read::listing(wide, raw, at) == Seq::<read::Found>::empty(),
{
    assert(read::listing(wide, raw, at) =~= seq![]);
}

proof fn slices(a: Seq<u8>, b: Seq<u8>, c: Seq<u8>, n: nat)
    ensures
        ({
            let whole = a + b + c + bytes::zeros(n);
            let (x, y, z) = (a.len() as int, (a.len() + b.len()) as int, (a.len() + b.len() + c.len()) as int);
            &&& whole.len() == z + n
            &&& whole.subrange(0, x) == a
            &&& whole.subrange(x, y) == b
            &&& whole.subrange(y, z) == c
            &&& n > 0 ==> whole[z] == 0
        }),
{
    let whole = a + b + c + bytes::zeros(n);
    let (x, y, z) = (a.len() as int, (a.len() + b.len()) as int, (a.len() + b.len() + c.len()) as int);
    assert(whole.subrange(0, x) =~= a);
    assert(whole.subrange(x, y) =~= b);
    assert(whole.subrange(y, z) =~= c);
}

/// The pointer by which a reader reaches the directory at `k`.
pub open spec fn pointer(f: plan::Shape, t: tree::Tree, k: int) -> Option<int> {
    if k == 0 {
        None
    } else {
        Some(plan::start(f, t, k as nat))
    }
}

/// A reader finds in a directory what the plan put there.
pub(crate) proof fn entries_of_dir(m: read::Media, f: plan::Shape, t: tree::Tree, k: int)
    requires
        carries(m, f, t),
        0 <= k < t.dirs.len(),
    ensures
        read::entries(m, pointer(f, t, k)) == Ok::<Seq<read::Found>, Seq<char>>(founds(f, t, k)),
{
    plan::dir_bytes_len(f, t, k);
    if k == 0 && !f.wide {
        plan::leaves_bounded(t, t.dirs[0], t.files.len());
        plan::root_fits(f, t, 0);
        dir_listing(f, t, 0, m.root_entries * 32);
    } else {
        plan::need_is_natural(f, t, k);
        plan::contents_len(f, t, k);
        let n = plan::need(f, t, k);
        assert(n > 0);
        chain_of_item(m, f, t, k as nat, 0);
        assert(run(plan::start(f, t, k as nat), 0) =~= seq![]);
        bytes_of_item(m, f, t, k as nat);
        dir_listing(f, t, k, n * f.cluster);
        if k == 0 {
            assert(plan::start(f, t, 0) == 2);
        }
    }
}

// ---- lookups ----

pub(crate) proof fn subs_complete(t: tree::Tree, dir: Seq<Seq<u8>>, k: nat, j: int) -> (x: int)
    requires
        0 <= j < k,
        plan::below(t.dirs[j], dir),
    ensures
        0 <= x < plan::subs(t, dir, k).len(),
        plan::subs(t, dir, k)[x] == j,
    decreases k,
{
    if j == k - 1 {
        plan::subs(t, dir, (k - 1) as nat).len() as int
    } else {
        subs_complete(t, dir, (k - 1) as nat, j)
    }
}

pub(crate) proof fn leaves_complete(t: tree::Tree, dir: Seq<Seq<u8>>, k: nat, j: int) -> (x: int)
    requires
        0 <= j < k,
        t.files[j].dir == dir,
    ensures
        0 <= x < plan::leaves(t, dir, k).len(),
        plan::leaves(t, dir, k)[x] == j,
    decreases k,
{
    if j == k - 1 {
        plan::leaves(t, dir, (k - 1) as nat).len() as int
    } else {
        leaves_complete(t, dir, (k - 1) as nat, j)
    }
}

proof fn named_at(es: Seq<read::Found>, name: Seq<char>, i: int, x: int)
    requires
        0 <= i <= x < es.len(),
        text::folded(es[x].name) == text::folded(name),
        forall|k: int|
            i <= k < x && text::folded((#[trigger] es[k]).name) == text::folded(name) ==> es[k] == es[x],
    ensures
        read::named(es, name, i) == Some(es[x]),
    decreases x - i,
{
    if text::folded(es[i].name) != text::folded(name) {
        named_at(es, name, i + 1, x);
    }
}

proof fn below_is_push(d: Seq<Seq<u8>>, dir: Seq<Seq<u8>>)
    requires
        plan::below(d, dir),
    ensures
        d == dir.push(d.last()),
{
    assert(d =~= dir.push(d.last()));
}

/// The subdirectory that a name leads to.
proof fn step_down(f: plan::Shape, t: tree::Tree, k: int, j: int, d: Seq<char>)
    requires
        sound::well_planted(t),
        0 <= k < t.dirs.len(),
        0 < j < t.dirs.len(),
        fat16::stored(d) is Some,
        names::neat(d),
        t.dirs[j] == t.dirs[k].push(fat16::stored(d)->0),
    ensures
        read::named(founds(f, t, k), d, 0) == Some(dir_found(f, t, j)),
{
    let s = plan::subs_at(t, k);
    let es = founds(f, t, k);
    subs_are_named(t, k);
    let n = fat16::stored(d)->0;
    assert(t.dirs[j].drop_last() =~= t.dirs[k]);
    assert(t.dirs[j].last() == n);
    let x = subs_complete(t, t.dirs[k], t.dirs.len(), j);
    names::found_by(n, d);
    assert(es[x] == dir_found(f, t, s[x]));
    assert forall|i: int|
        0 <= i < x && text::folded((#[trigger] es[i]).name) == text::folded(d) implies es[i] == es[x] by {
        assert(es[i] == dir_found(f, t, s[i]));
        let o = s[i];
        assert(sound::good_name(t.dirs[o].last()));
        names::found_by(t.dirs[o].last(), d);
        if text::folded(es[i].name) == text::folded(d) {
            below_is_push(t.dirs[o], t.dirs[k]);
            assert(t.dirs[o] == t.dirs[j]);
        }
    }
    named_at(es, d, 0, x);
}

/// The file that a name leads to.
proof fn step_to_file(f: plan::Shape, t: tree::Tree, k: int, j: int, d: Seq<char>)
    requires
        sound::well_planted(t),
        0 <= k < t.dirs.len(),
        0 <= j < t.files.len(),
        fat16::stored(d) is Some,
        names::neat(d),
        t.files[j].dir == t.dirs[k],
        t.files[j].name == fat16::stored(d)->0,
    ensures
        read::named(founds(f, t, k), d, 0) == Some(file_found(f, t, j)),
{
    let s = plan::subs_at(t, k);
    let l = plan::leaves_at(t, k);
    let es = founds(f, t, k);
    subs_are_named(t, k);
    let n = fat16::stored(d)->0;
    let y = leaves_complete(t, t.dirs[k], t.files.len(), j);
    let x = s.len() + y;
    names::found_by(n, d);
    assert(es[x] == file_found(f, t, l[y]));
    assert forall|i: int|
        0 <= i < x && text::folded((#[trigger] es[i]).name) == text::folded(d) implies es[i] == es[x] by {
        if i < s.len() {
            assert(es[i] == dir_found(f, t, s[i]));
            let o = s[i];
            names::found_by(t.dirs[o].last(), d);
            below_is_push(t.dirs[o], t.dirs[k]);
            assert(t.dirs.contains(t.dirs[o]));
            assert(!t.dirs.contains(t.files[j].dir.push(t.files[j].name)));
        } else {
            assert(es[i] == file_found(f, t, l[i - s.len()]));
            let o = l[i - s.len()];
            assert(sound::good_name(t.files[o].name));
            names::found_by(t.files[o].name, d);
            if t.files[o].name == n {
                assert(o == j) by {
                    if o < j {
                        assert(!(t.files[o].dir == t.files[j].dir && t.files[o].name == t.files[j].name));
                    } else if j < o {
                        assert(!(t.files[j].dir == t.files[o].dir && t.files[j].name == t.files[o].name));
                    }
                }
            }
        }
    }
    named_at(es, d, 0, x);
}

pub(crate) proof fn dir_stands(t: tree::Tree, d: Seq<Seq<u8>>, n: nat)
    requires
        sound::well_planted(t),
        t.dirs.contains(d),
        n <= d.len(),
    ensures
        t.dirs.contains(d.subrange(0, n as int)),
    decreases d.len() - n,
{
    if n == d.len() {
        assert(d.subrange(0, n as int) =~= d);
    } else {
        let k = choose|k: int| 0 <= k < t.dirs.len() && t.dirs[k] == d;
        assert(k > 0);
        assert(t.dirs.contains(d.drop_last()));
        dir_stands(t, d.drop_last(), n);
        assert(d.drop_last().subrange(0, n as int) =~= d.subrange(0, n as int));
    }
}

/// The components of a path lead to the file they name.
proof fn path_leads(
    m: read::Media,
    f: plan::Shape,
    t: tree::Tree,
    j: int,
    parts: Seq<Seq<char>>,
    i: nat,
    k: int,
)
    requires
        carries(m, f, t),
        0 <= j < t.files.len(),
        parts.len() > 0,
        i < parts.len(),
        forall|c: int| 0 <= c < parts.len() ==> fat16::stored(#[trigger] parts[c]) is Some && names::neat(parts[c]),
        t.files[j].dir == sound::stored_path(parts, (parts.len() - 1) as nat),
        t.files[j].name == fat16::stored(parts[parts.len() - 1])->0,
        0 <= k < t.dirs.len(),
        t.dirs[k] == sound::stored_path(parts, i),
    ensures
        read::sought(m, parts, i as int, pointer(f, t, k)) == Ok::<Option<read::Found>, Seq<char>>(
            Some(file_found(f, t, j)),
        ),
    decreases parts.len() - i,
{
    entries_of_dir(m, f, t, k);
    if i + 1 == parts.len() {
        step_to_file(f, t, k, j, parts[i as int]);
    } else {
        let whole = t.files[j].dir;
        dir_stands(t, whole, i + 1);
        let next = sound::stored_path(parts, i + 1);
        assert(whole.subrange(0, (i + 1) as int) =~= next);
        let o = choose|o: int| 0 <= o < t.dirs.len() && t.dirs[o] == next;
        assert(next =~= t.dirs[k].push(fat16::stored(parts[i as int])->0));
        assert(o > 0) by {
            if o == 0 {
                assert(t.dirs[0].len() == 0);
                assert(next.len() == i + 1);
            }
        }
        step_down(f, t, k, o, parts[i as int]);
        path_leads(m, f, t, j, parts, i + 1, o);
    }
}

/// A file of a plan reads back from a volume that carries the plan.
pub(crate) proof fn planned_file_reads_back(
    m: read::Media,
    f: plan::Shape,
    t: tree::Tree,
    j: int,
    path: Seq<char>,
)
    requires
        carries(m, f, t),
        0 <= j < t.files.len(),
        ({
            let parts = read::steps_of(path);
            &&& parts.len() > 0
            &&& forall|c: int|
                0 <= c < parts.len() ==> fat16::stored(#[trigger] parts[c]) is Some && names::neat(parts[c])
            &&& t.files[j].dir == sound::stored_path(parts, (parts.len() - 1) as nat)
            &&& t.files[j].name == fat16::stored(parts[parts.len() - 1])->0
        }),
    ensures
        read::read(m, path) == Ok::<Option<Seq<u8>>, Seq<char>>(Some(t.files[j].data)),
{
    let parts = read::steps_of(path);
    assert(t.dirs[0] =~= sound::stored_path(parts, 0));
    path_leads(m, f, t, j, parts, 0, 0);
    let it = (t.dirs.len() + j) as nat;
    let data = t.files[j].data;
    plan::need_is_natural(f, t, it as int);
    if plan::need(f, t, it as int) == 0 {
        assert(data =~= seq![]);
    } else {
        let n = plan::need(f, t, it as int);
        start_within(f, t, it);
        chain_of_item(m, f, t, it, 0);
        assert(run(plan::start(f, t, it), 0) =~= seq![]);
        bytes_of_item(m, f, t, it);
        assert(plan::padded(data, n * f.cluster).subrange(0, data.len() as int) =~= data);
    }
}

/// The components of a path are stored as those they go by.
proof fn parts_are_stored(item: tree::Item, path: Seq<char>)
    requires
        fat16::goes_by(path, item),
        forall|c: int|
            0 <= c < text::pieces(item.path, '/', 0).len() ==> fat16::stored(
                #[trigger] text::pieces(item.path, '/', 0)[c],
            ) is Some,
    ensures
        forall|c: int|
            0 <= c < read::steps_of(path).len() ==> fat16::stored(#[trigger] read::steps_of(path)[c]) is Some
                && names::neat(read::steps_of(path)[c]) && fat16::stored(read::steps_of(path)[c]) == fat16::stored(
                text::pieces(item.path, '/', 0)[c],
            ),
{
    let comps = text::pieces(item.path, '/', 0);
    let parts = read::steps_of(path);
    assert forall|c: int| 0 <= c < parts.len() implies fat16::stored(#[trigger] parts[c]) is Some && names::neat(
        parts[c],
    ) && fat16::stored(parts[c]) == fat16::stored(comps[c]) by {
        names::tidy_is_neat(comps[c]);
        names::stored_of_folded(parts[c], names::tidy(comps[c]));
    }
}

/// The file that a path leads to reads back from a volume that carries it.
pub(crate) proof fn file_of_path_reads_back(
    m: read::Media,
    f: plan::Shape,
    t: tree::Tree,
    item: tree::Item,
    path: Seq<char>,
)
    requires
        carries(m, f, t),
        t.files.contains(sound::leaf_of(item)),
        forall|c: int|
            0 <= c < text::pieces(item.path, '/', 0).len() ==> fat16::stored(
                #[trigger] text::pieces(item.path, '/', 0)[c],
            ) is Some,
        fat16::leads_to(path, item),
    ensures
        read::read(m, path) == Ok::<Option<Seq<u8>>, Seq<char>>(Some(item.data)),
{
    let comps = text::pieces(item.path, '/', 0);
    let parts = read::steps_of(path);
    sound::pieces_are_some(item.path, '/', 0);
    let leaf = sound::leaf_of(item);
    let j = choose|j: int| 0 <= j < t.files.len() && t.files[j] == leaf;
    parts_are_stored(item, path);
    let last = (parts.len() - 1) as nat;
    assert(sound::stored_path(parts, last) =~= sound::stored_path(comps, last));
    planned_file_reads_back(m, f, t, j, path);
}

/// The components of a path lead to the directory they name.
proof fn path_leads_down(
    m: read::Media,
    f: plan::Shape,
    t: tree::Tree,
    j: int,
    parts: Seq<Seq<char>>,
    i: nat,
    k: int,
)
    requires
        carries(m, f, t),
        0 < j < t.dirs.len(),
        i < parts.len(),
        forall|c: int| 0 <= c < parts.len() ==> fat16::stored(#[trigger] parts[c]) is Some && names::neat(parts[c]),
        t.dirs[j] == sound::stored_path(parts, parts.len()),
        0 <= k < t.dirs.len(),
        t.dirs[k] == sound::stored_path(parts, i),
    ensures
        read::sought(m, parts, i as int, pointer(f, t, k)) == Ok::<Option<read::Found>, Seq<char>>(
            Some(dir_found(f, t, j)),
        ),
    decreases parts.len() - i,
{
    entries_of_dir(m, f, t, k);
    let next = sound::stored_path(parts, i + 1);
    let whole = t.dirs[j];
    assert(t.dirs.contains(whole));
    dir_stands(t, whole, i + 1);
    assert(whole.subrange(0, (i + 1) as int) =~= next);
    assert(next =~= t.dirs[k].push(fat16::stored(parts[i as int])->0));
    let o = choose|o: int| 0 <= o < t.dirs.len() && t.dirs[o] == next;
    assert(o > 0) by {
        if o == 0 {
            assert(t.dirs[0].len() == 0);
            assert(next.len() == i + 1);
        }
    }
    step_down(f, t, k, o, parts[i as int]);
    if i + 1 == parts.len() {
        assert(next == whole);
        assert(o == j) by {
            if o < j {
                assert(t.dirs[o] != t.dirs[j]);
            } else if j < o {
                assert(t.dirs[j] != t.dirs[o]);
            }
        }
    } else {
        path_leads_down(m, f, t, j, parts, i + 1, o);
    }
}

/// The directory that a path leads to stands in the tree.
proof fn dir_of_path_stands(files: Seq<tree::Item>, what: Seq<char>, x: int, path: Seq<char>)
    requires
        tree::planted(files, what, files.len()) is Ok,
        0 <= x < files.len(),
        fat16::leads_above(path, files[x]),
    ensures
        ({
            let parts = read::steps_of(path);
            let t = tree::planted(files, what, files.len())->Ok_0;
            &&& t.dirs.contains(sound::stored_path(parts, parts.len()))
            &&& forall|c: int|
                0 <= c < parts.len() ==> fat16::stored(#[trigger] parts[c]) is Some && names::neat(parts[c])
        }),
{
    let comps = text::pieces(files[x].path, '/', 0);
    let parts = read::steps_of(path);
    let n = parts.len() as int;
    sound::every_file_is_planted(files, what, files.len());
    parts_are_stored(files[x], path);
    let d = sound::stored_path(comps, n as nat);
    assert(d =~= sound::stored_path(parts, parts.len()));
    assert(0 < n < comps.len());
    assert(order::leads_through(comps, d, 0));
    assert(order::above_some(files, d, files.len() as int));
    order::planted_is_in_order(files, what, files.len());
}

/// The directory that a path leads to is not read from a volume that carries it.
pub(crate) proof fn dir_of_path_is_refused(
    m: read::Media,
    f: plan::Shape,
    files: Seq<tree::Item>,
    what: Seq<char>,
    x: int,
    path: Seq<char>,
)
    requires
        tree::planted(files, what, files.len()) is Ok,
        carries(m, f, tree::planted(files, what, files.len())->Ok_0),
        0 <= x < files.len(),
        fat16::leads_above(path, files[x]),
    ensures
        read::read(m, path) == Err::<Option<Seq<u8>>, Seq<char>>(path + " is a directory"@),
{
    let t = tree::planted(files, what, files.len())->Ok_0;
    let parts = read::steps_of(path);
    let d = sound::stored_path(parts, parts.len());
    dir_of_path_stands(files, what, x, path);
    let j = t.dirs.index_of(d);
    assert(t.dirs[0] =~= sound::stored_path(parts, 0));
    assert(j > 0) by {
        assert(t.dirs[j].len() == parts.len());
    }
    path_leads_down(m, f, t, j, parts, 0, 0);
}

/// Whether a path's components are what stored names are found by.
pub open spec fn called(parts: Seq<Seq<char>>, p: Seq<Seq<u8>>) -> bool {
    &&& p.len() == parts.len()
    &&& forall|c: int| 0 <= c < parts.len() ==> text::folded(#[trigger] parts[c]) == text::folded(names::shown(p[c]))
}

proof fn named_is_one_of_them(es: Seq<read::Found>, name: Seq<char>, i: int)
    requires
        0 <= i,
        read::named(es, name, i) is Some,
    ensures
        exists|x: int|
            0 <= x < es.len() && #[trigger] es[x] == read::named(es, name, i)->0 && text::folded(es[x].name)
                == text::folded(name),
    decreases es.len() - i,
{
    if text::folded(es[i].name) != text::folded(name) {
        named_is_one_of_them(es, name, i + 1);
    } else {
        assert(es[i] == read::named(es, name, i)->0);
    }
}

#[verifier::spinoff_prover]
#[verifier::rlimit(60)]
proof fn stray_parts_find_nothing(
    m: read::Media,
    f: plan::Shape,
    t: tree::Tree,
    parts: Seq<Seq<char>>,
    i: nat,
    k: int,
)
    requires
        carries(m, f, t),
        i < parts.len(),
        0 <= k < t.dirs.len(),
        called(parts.subrange(0, i as int), t.dirs[k]),
        forall|j: int| 0 < j < t.dirs.len() ==> !called(parts, #[trigger] t.dirs[j]),
        forall|j: int|
            0 <= j < t.files.len() ==> !called(parts, (#[trigger] t.files[j]).dir.push(t.files[j].name)),
    ensures
        read::sought(m, parts, i as int, pointer(f, t, k)) == Ok::<Option<read::Found>, Seq<char>>(None),
    decreases parts.len() - i,
{
    entries_of_dir(m, f, t, k);
    subs_are_named(t, k);
    let es = founds(f, t, k);
    let part = parts[i as int];
    let s = plan::subs_at(t, k);
    let l = plan::leaves_at(t, k);
    if read::named(es, part, 0) is Some {
        named_is_one_of_them(es, part, 0);
        let e = read::named(es, part, 0)->0;
        let x = choose|x: int|
            0 <= x < es.len() && #[trigger] es[x] == e && text::folded(es[x].name) == text::folded(part);
        let deeper = parts.subrange(0, (i + 1) as int);
        if x < s.len() {
            let j = s[x];
            assert(e == dir_found(f, t, j));
            below_is_push(t.dirs[j], t.dirs[k]);
            one_deeper(parts, t.dirs[k], t.dirs[j].last(), i);
            if i + 1 == parts.len() {
                assert(deeper =~= parts);
            } else {
                stray_parts_find_nothing(m, f, t, parts, i + 1, j);
            }
        } else {
            let j = l[x - s.len()];
            assert(e == file_found(f, t, j));
            one_deeper(parts, t.dirs[k], t.files[j].name, i);
            if i + 1 == parts.len() {
                assert(deeper =~= parts);
            }
        }
    }
}

proof fn one_deeper(parts: Seq<Seq<char>>, d: Seq<Seq<u8>>, n: Seq<u8>, i: nat)
    requires
        i < parts.len(),
        called(parts.subrange(0, i as int), d),
        text::folded(parts[i as int]) == text::folded(names::shown(n)),
    ensures
        called(parts.subrange(0, (i + 1) as int), d.push(n)),
{
    let deeper = parts.subrange(0, (i + 1) as int);
    let before = parts.subrange(0, i as int);
    assert forall|c: int| 0 <= c < deeper.len() implies text::folded(#[trigger] deeper[c]) == text::folded(
        names::shown(d.push(n)[c]),
    ) by {
        if c < i {
            assert(deeper[c] == before[c]);
        }
    }
}

/// What a path goes by, if its components are what the stored names of a file's path are found by.
proof fn called_goes_by(files: Seq<tree::Item>, x: int, path: Seq<char>, n: nat)
    requires
        0 <= x < files.len(),
        forall|c: int|
            0 <= c < text::pieces(files[x].path, '/', 0).len() ==> fat16::stored(
                #[trigger] text::pieces(files[x].path, '/', 0)[c],
            ) is Some,
        n <= text::pieces(files[x].path, '/', 0).len(),
        called(read::steps_of(path), sound::stored_path(text::pieces(files[x].path, '/', 0), n)),
    ensures
        fat16::goes_by(path, files[x]),
        read::steps_of(path).len() == n,
{
    let comps = text::pieces(files[x].path, '/', 0);
    let parts = read::steps_of(path);
    assert forall|k: int| 0 <= k < parts.len() implies text::folded(#[trigger] parts[k]) == text::folded(
        names::tidy(comps[k]),
    ) by {
        names::tidy_is_neat(comps[k]);
        names::shown_folds_back(names::tidy(comps[k]));
        assert(sound::stored_path(comps, n)[k] == fat16::stored(comps[k])->0);
    }
}

/// A path that leads to nothing is what no file and no directory is found by.
proof fn strays_are_called_by_nothing(files: Seq<tree::Item>, what: Seq<char>, path: Seq<char>)
    requires
        tree::planted(files, what, files.len()) is Ok,
        read::steps_of(path).len() > 0,
        forall|i: int|
            0 <= i < files.len() ==> !fat16::leads_to(path, #[trigger] files[i]) && !fat16::leads_above(
                path,
                files[i],
            ),
    ensures
        ({
            let t = tree::planted(files, what, files.len())->Ok_0;
            let parts = read::steps_of(path);
            &&& forall|j: int| 0 < j < t.dirs.len() ==> !called(parts, #[trigger] t.dirs[j])
            &&& forall|j: int|
                0 <= j < t.files.len() ==> !called(parts, (#[trigger] t.files[j]).dir.push(t.files[j].name))
        }),
{
    let t = tree::planted(files, what, files.len())->Ok_0;
    let parts = read::steps_of(path);
    sound::every_file_is_planted(files, what, files.len());
    order::planted_is_in_order(files, what, files.len());
    assert forall|j: int| 0 < j < t.dirs.len() implies !called(parts, #[trigger] t.dirs[j]) by {
        let d = t.dirs[j];
        assert(t.dirs.contains(d));
        if called(parts, d) {
            let x = choose|x: int|
                0 <= x < files.len() && order::leads_through(text::pieces((#[trigger] files[x]).path, '/', 0), d, 0);
            let comps = text::pieces(files[x].path, '/', 0);
            let n = choose|n: int| 0 < n < comps.len() && d == #[trigger] sound::stored_path(comps, n as nat);
            called_goes_by(files, x, path, n as nat);
        }
    }
    assert forall|j: int| 0 <= j < t.files.len() implies !called(
        parts,
        (#[trigger] t.files[j]).dir.push(t.files[j].name),
    ) by {
        let l = t.files[j];
        assert(t.files.contains(l));
        let x = choose|x: int| 0 <= x < files.len() && l == sound::leaf_of(#[trigger] files[x]);
        let comps = text::pieces(files[x].path, '/', 0);
        sound::pieces_are_some(files[x].path, '/', 0);
        assert(l.dir.push(l.name) =~= sound::stored_path(comps, comps.len()));
        if called(parts, l.dir.push(l.name)) {
            called_goes_by(files, x, path, comps.len());
        }
    }
}

/// A path that leads to nothing finds nothing on a volume that carries the files.
pub(crate) proof fn stray_path_finds_nothing(
    m: read::Media,
    f: plan::Shape,
    files: Seq<tree::Item>,
    what: Seq<char>,
    path: Seq<char>,
)
    requires
        tree::planted(files, what, files.len()) is Ok,
        carries(m, f, tree::planted(files, what, files.len())->Ok_0),
        forall|i: int|
            0 <= i < files.len() ==> !fat16::leads_to(path, #[trigger] files[i]) && !fat16::leads_above(
                path,
                files[i],
            ),
    ensures
        read::read(m, path) == Ok::<Option<Seq<u8>>, Seq<char>>(None),
{
    let t = tree::planted(files, what, files.len())->Ok_0;
    let parts = read::steps_of(path);
    if parts.len() > 0 {
        strays_are_called_by_nothing(files, what, path);
        assert(parts.subrange(0, 0) =~= seq![]);
        stray_parts_find_nothing(m, f, t, parts, 0, 0);
    }
}

// ---- tables ----

/// Each copy is the table.
pub(crate) proof fn copies_at(s: Seq<u8>, n: nat, k: int, x: int)
    requires
        0 <= k < n,
        0 <= x < s.len(),
    ensures
        0 <= k * s.len() + x < plan::copies(s, n).len(),
        plan::copies(s, n)[k * s.len() + x] == s[x],
    decreases n,
{
    fat16::copies_len(s, n);
    fat16::copies_len(s, (n - 1) as nat);
    let size = s.len() as int;
    assert(0 <= k * size && k * size + size <= n * size) by (nonlinear_arith)
        requires
            0 <= k,
            k + 1 <= n,
            size >= 0,
    ;
    if k < n - 1 {
        copies_at(s, (n - 1) as nat, k, x);
    } else {
        assert((n - 1) * size == k * size);
    }
}

proof fn cell_bytes_at(wide: bool, c: Seq<int>, n: nat, i: int, y: int)
    requires
        0 <= i < n <= c.len(),
        0 <= y < read::width(wide),
    ensures
        plan::cell_bytes(wide, c, n).len() == n * read::width(wide),
        i * read::width(wide) + y < n * read::width(wide),
        plan::cell_bytes(wide, c, n)[i * read::width(wide) + y] == plan::cell(wide, c[i])[y],
    decreases n,
{
    plan::cell_bytes_len(wide, c, n);
    plan::cell_bytes_len(wide, c, (n - 1) as nat);
    if i < n - 1 {
        cell_bytes_at(wide, c, (n - 1) as nat, i, y);
    }
}

/// What the bytes of the plan's table say of a cluster.
pub(crate) proof fn table_tells(f: plan::Shape, t: tree::Tree, size: int, c: int)
    requires
        f.cluster > 0,
        plan::wrong(f, t) is None,
        0 < f.clusters < if f.wide {
            0x0FFF_FFF5int
        } else {
            0xFFF5int
        },
        0 <= c < f.clusters + 2,
        (f.clusters + 2) * read::width(f.wide) <= size,
    ensures
        ({
            let tb = plan::table_bytes(f, t, size);
            if f.wide {
                bytes::le32(tb, 4 * c) % 0x1000_0000 == told(f, t, c)
            } else {
                bytes::le16(tb, 2 * c) == told(f, t, c)
            }
        }),
        plan::table_bytes(f, t, size).len() == size,
{
    let all = t.dirs.len() + t.files.len();
    let cs = plan::cells(f, t, all);
    let n = cs.len();
    let tb = plan::table_bytes(f, t, size);
    start_within(f, t, all);
    plan::cells_len(f, t, all);
    plan::cells_bounded(f, t, all);
    plan::cell_bytes_len(f.wide, cs, n);
    if c < n {
        cell_bytes_at(f.wide, cs, n, c, 0);
        cell_bytes_at(f.wide, cs, n, c, 1);
        if f.wide {
            cell_bytes_at(f.wide, cs, n, c, 2);
            cell_bytes_at(f.wide, cs, n, c, 3);
            bytes::le32_of_bytes(cs[c]);
        } else {
            bytes::le16_of_bytes(cs[c]);
        }
    }
}

} // verus!
