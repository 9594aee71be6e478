//! Where everything on a volume goes: which clusters each directory and each file takes, what
//! the directories hold, and what the table says.
//!
//! Everything is written once, so every chain is contiguous: first each directory's, in the
//! order of the tree, and then each file's.

use vstd::prelude::*;
use vstd::string::*;

use super::tree;
use super::tree::TreeRec;
use crate::bytes;
use crate::text;

verus! {

pub const ENTRY: usize = 32;

pub const ATTR_VOLUME_ID: u8 = 0x08;

pub const ATTR_DIRECTORY: u8 = 0x10;

pub const ATTR_ARCHIVE: u8 = 0x20;

/// 1980-01-01, as a FAT date: day 1, month 1, year 0 of the FAT epoch.
pub const FAT_EPOCH_DATE: u16 = 33;

/// What the planning of a volume needs to know of its shape.
pub struct Form<'p> {
    /// FAT32 rather than FAT16.
    pub wide: bool,
    /// Bytes in a cluster.
    pub cluster: usize,
    pub clusters: u32,
    /// Entries that the root's own region holds, on a volume that has one.
    pub root_max: usize,
    pub label: [u8; 11],
    pub what: &'p str,
    pub kib: u64,
}

/// A volume's shape over mathematical values.
pub struct Shape {
    pub wide: bool,
    pub cluster: int,
    pub clusters: int,
    pub root_max: int,
    pub label: Seq<u8>,
    pub what: Seq<char>,
    pub kib: int,
}

impl<'p> View for Form<'p> {
    type V = Shape;

    open spec fn view(&self) -> Shape {
        Shape {
            wide: self.wide,
            cluster: self.cluster as int,
            clusters: self.clusters as int,
            root_max: self.root_max as int,
            label: self.label@,
            what: self.what@,
            kib: self.kib as int,
        }
    }
}

/// How many times `b` it takes to cover `a`.
pub open spec fn cover(a: int, b: int) -> int {
    (a + b - 1) / b
}

/// Whether `d` lies directly in `dir`.
pub open spec fn below(d: Seq<Seq<u8>>, dir: Seq<Seq<u8>>) -> bool {
    d.len() > 0 && d.drop_last() == dir
}

/// Which of the first `k` directories lie directly in `dir`.
pub open spec fn subs(t: tree::Tree, dir: Seq<Seq<u8>>, k: nat) -> Seq<int>
    decreases k,
{
    if k == 0 {
        seq![]
    } else if below(t.dirs[k - 1], dir) {
        subs(t, dir, (k - 1) as nat).push(k - 1)
    } else {
        subs(t, dir, (k - 1) as nat)
    }
}

/// Which of the first `k` files lie directly in `dir`.
pub open spec fn leaves(t: tree::Tree, dir: Seq<Seq<u8>>, k: nat) -> Seq<int>
    decreases k,
{
    if k == 0 {
        seq![]
    } else if t.files[k - 1].dir == dir {
        leaves(t, dir, (k - 1) as nat).push(k - 1)
    } else {
        leaves(t, dir, (k - 1) as nat)
    }
}

/// The subdirectories of the directory at `k`.
pub open spec fn subs_at(t: tree::Tree, k: int) -> Seq<int> {
    subs(t, t.dirs[k], t.dirs.len())
}

/// The files of the directory at `k`.
pub open spec fn leaves_at(t: tree::Tree, k: int) -> Seq<int> {
    leaves(t, t.dirs[k], t.files.len())
}

/// How many entries the directory at `k` holds: the label for the root, `.` and `..` for any
/// other, and one for everything in it.
pub open spec fn entry_count(t: tree::Tree, k: int) -> int {
    subs_at(t, k).len() + leaves_at(t, k).len() + if k == 0 {
        1int
    } else {
        2int
    }
}

/// How many bytes item `j` takes; the directories come first and then the files.
pub open spec fn size_of(t: tree::Tree, j: int) -> int {
    if j < t.dirs.len() {
        entry_count(t, j) * ENTRY
    } else {
        t.files[j - t.dirs.len()].data.len() as int
    }
}

/// How many clusters item `j` takes. The root takes none where it has its own region.
pub open spec fn need(f: Shape, t: tree::Tree, j: int) -> int {
    if j == 0 && !f.wide {
        0
    } else {
        cover(size_of(t, j), f.cluster)
    }
}

/// The cluster behind those that the first `j` items take.
pub open spec fn start(f: Shape, t: tree::Tree, j: nat) -> int
    decreases j,
{
    if j == 0 {
        2
    } else {
        start(f, t, (j - 1) as nat) + need(f, t, j - 1)
    }
}

/// The first cluster of item `j`, or 0 for an empty file, which has no chain at all.
pub open spec fn first_cluster(f: Shape, t: tree::Tree, j: int) -> int {
    if need(f, t, j) == 0 {
        0
    } else {
        start(f, t, j as nat)
    }
}

/// What is said when the clusters run out.
pub open spec fn full(f: Shape) -> Seq<char> {
    f.what + " is full: "@ + text::decimal(f.kib) + (if f.wide {
        " KiB of FAT32 cannot hold these files"@
    } else {
        " KiB of FAT16 cannot hold these files"@
    })
}

/// What is wrong with the files from `j` on, if anything is: one is too large, they do not fit,
/// or, once the root's own files are placed, the root's region is too small.
pub open spec fn files_wrong(f: Shape, t: tree::Tree, j: int) -> Option<Seq<char>>
    decreases t.files.len() - j,
{
    let n = t.dirs.len();
    if !f.wide && j == leaves_at(t, 0).len() && entry_count(t, 0) > f.root_max {
        Some("too many entries in the root directory of "@ + f.what)
    } else if j < 0 || j >= t.files.len() {
        None
    } else if t.files[j].data.len() > u32::MAX {
        Some("a file larger than 4 GiB"@)
    } else if start(f, t, (n + j + 1) as nat) > f.clusters + 2 {
        Some(full(f))
    } else {
        files_wrong(f, t, j + 1)
    }
}

/// What is wrong with a tree for a volume of this shape, if anything is.
pub open spec fn wrong(f: Shape, t: tree::Tree) -> Option<Seq<char>> {
    if start(f, t, t.dirs.len()) > f.clusters + 2 {
        Some(full(f))
    } else {
        files_wrong(f, t, 0)
    }
}

/// One directory entry.
#[verifier::opaque]
pub open spec fn entry(wide: bool, name: Seq<u8>, attr: u8, cluster: int, size: int) -> Seq<u8> {
    name + seq![attr] + bytes::zeros(4) + bytes::le16_bytes(FAT_EPOCH_DATE as int) + bytes::le16_bytes(
        FAT_EPOCH_DATE as int,
    ) + bytes::le16_bytes(
        if wide {
            cluster / 0x1_0000
        } else {
            0
        },
    ) + bytes::zeros(2) + bytes::le16_bytes(FAT_EPOCH_DATE as int) + bytes::le16_bytes(cluster % 0x1_0000)
        + bytes::le32_bytes(size)
}

/// The name of a directory's own entry, and of its parent's.
pub open spec fn dots(n: nat) -> Seq<u8> {
    Seq::new(
        11,
        |i: int|
            if i < n {
                0x2eu8
            } else {
                0x20u8
            },
    )
}

/// Where `d` stands among the directories from `i` on.
pub open spec fn place(dirs: Seq<Seq<Seq<u8>>>, d: Seq<Seq<u8>>, i: int) -> int
    decreases dirs.len() - i,
{
    if 0 <= i < dirs.len() && dirs[i] != d {
        place(dirs, d, i + 1)
    } else {
        i
    }
}

/// The cluster by which a directory names the one above it: the root is 0, wherever it is.
pub open spec fn parent_cluster(f: Shape, t: tree::Tree, k: int) -> int {
    let p = place(t.dirs, t.dirs[k].drop_last(), 0);
    if p == 0 {
        0
    } else {
        start(f, t, p as nat)
    }
}

/// The entries a directory begins with.
pub open spec fn head_entries(f: Shape, t: tree::Tree, k: int) -> Seq<u8> {
    if k == 0 {
        entry(f.wide, f.label, ATTR_VOLUME_ID, 0, 0)
    } else {
        entry(f.wide, dots(1), ATTR_DIRECTORY, start(f, t, k as nat), 0) + entry(
            f.wide,
            dots(2),
            ATTR_DIRECTORY,
            parent_cluster(f, t, k),
            0,
        )
    }
}

/// The entry of the directory at `j` in the one above it.
pub open spec fn dir_entry(f: Shape, t: tree::Tree, j: int) -> Seq<u8> {
    entry(f.wide, t.dirs[j].last(), ATTR_DIRECTORY, start(f, t, j as nat), 0)
}

/// The entry of the file at `j`.
pub open spec fn file_entry(f: Shape, t: tree::Tree, j: int) -> Seq<u8> {
    entry(
        f.wide,
        t.files[j].name,
        ATTR_ARCHIVE,
        first_cluster(f, t, t.dirs.len() + j),
        t.files[j].data.len() as int,
    )
}

/// The entries of the first `n` of the directories that `ids` names.
pub open spec fn dir_entries(f: Shape, t: tree::Tree, ids: Seq<int>, n: nat) -> Seq<u8>
    decreases n,
{
    if n == 0 {
        seq![]
    } else {
        dir_entries(f, t, ids, (n - 1) as nat) + dir_entry(f, t, ids[n - 1])
    }
}

/// The entries of the first `n` of the files that `ids` names.
pub open spec fn file_entries(f: Shape, t: tree::Tree, ids: Seq<int>, n: nat) -> Seq<u8>
    decreases n,
{
    if n == 0 {
        seq![]
    } else {
        file_entries(f, t, ids, (n - 1) as nat) + file_entry(f, t, ids[n - 1])
    }
}

/// What the directory at `k` holds.
pub open spec fn dir_bytes(f: Shape, t: tree::Tree, k: int) -> Seq<u8> {
    head_entries(f, t, k) + dir_entries(f, t, subs_at(t, k), subs_at(t, k).len()) + file_entries(
        f,
        t,
        leaves_at(t, k),
        leaves_at(t, k).len(),
    )
}

/// What item `j` holds.
pub open spec fn contents(f: Shape, t: tree::Tree, j: int) -> Seq<u8> {
    if j < t.dirs.len() {
        dir_bytes(f, t, j)
    } else {
        t.files[j - t.dirs.len()].data
    }
}

/// `s` filled up with zeros to `n` bytes.
pub open spec fn padded(s: Seq<u8>, n: int) -> Seq<u8> {
    s + bytes::zeros((n - s.len()) as nat)
}

/// The clusters that the first `j` items take.
pub open spec fn laid(f: Shape, t: tree::Tree, j: nat) -> Seq<u8>
    decreases j,
{
    if j == 0 {
        seq![]
    } else if need(f, t, j - 1) == 0 {
        laid(f, t, (j - 1) as nat)
    } else {
        laid(f, t, (j - 1) as nat) + padded(contents(f, t, j - 1), need(f, t, j - 1) * f.cluster)
    }
}

/// What ends a chain.
pub open spec fn end_mark(wide: bool) -> int {
    if wide {
        0x0FFF_FFFF
    } else {
        0xFFFF
    }
}

/// The table's entries for a chain of `n` clusters from `first` on.
pub open spec fn links(wide: bool, first: int, n: int) -> Seq<int> {
    Seq::new(
        n as nat,
        |i: int|
            if i + 1 == n {
                end_mark(wide)
            } else {
                first + i + 1
            },
    )
}

/// The table's entries up to those of the first `j` items.
pub open spec fn cells(f: Shape, t: tree::Tree, j: nat) -> Seq<int>
    decreases j,
{
    if j == 0 {
        seq![
            if f.wide {
                0x0FFF_FFF8int
            } else {
                0xFFF8int
            },
            end_mark(f.wide),
        ]
    } else {
        cells(f, t, (j - 1) as nat) + links(f.wide, start(f, t, (j - 1) as nat), need(f, t, j - 1))
    }
}

/// One entry of the table.
pub open spec fn cell(wide: bool, c: int) -> Seq<u8> {
    if wide {
        bytes::le32_bytes(c)
    } else {
        bytes::le16_bytes(c)
    }
}

/// The first `n` entries of the table.
pub open spec fn cell_bytes(wide: bool, c: Seq<int>, n: nat) -> Seq<u8>
    decreases n,
{
    if n == 0 {
        seq![]
    } else {
        cell_bytes(wide, c, (n - 1) as nat) + cell(wide, c[n - 1])
    }
}

/// The table, filled up to `n` bytes.
pub open spec fn table_bytes(f: Shape, t: tree::Tree, n: int) -> Seq<u8> {
    let c = cells(f, t, t.dirs.len() + t.files.len());
    padded(cell_bytes(f.wide, c, c.len()), n)
}

/// `n` copies of `s`.
pub open spec fn copies(s: Seq<u8>, n: nat) -> Seq<u8>
    decreases n,
{
    if n == 0 {
        seq![]
    } else {
        copies(s, (n - 1) as nat) + s
    }
}

// ---- facts about the plan ----

pub(crate) proof fn cover_fits(a: int, b: int)
    requires
        0 <= a,
        0 < b,
    ensures
        cover(a, b) >= 0,
        cover(a, b) * b >= a,
        a > 0 ==> cover(a, b) >= 1,
        a == 0 ==> cover(a, b) == 0,
        a > 0 ==> (cover(a, b) - 1) * b < a,
{
    let q = (a + b - 1) / b;
    assert(q * b <= a + b - 1 < q * b + b) by (nonlinear_arith)
        requires
            b > 0,
            q == (a + b - 1) / b,
    ;
    assert((q - 1) * b == q * b - b) by (nonlinear_arith);
    if q < 0 {
        assert(q * b + b <= 0) by (nonlinear_arith)
            requires
                q <= -1,
                b > 0,
        ;
    }
    if a > 0 && q < 1 {
        assert(q * b <= 0) by (nonlinear_arith)
            requires
                q <= 0,
                b > 0,
        ;
    }
    if a == 0 && q >= 1 {
        assert(q * b >= b) by (nonlinear_arith)
            requires
                q >= 1,
                b > 0,
        ;
    }
}

pub(crate) proof fn need_is_natural(f: Shape, t: tree::Tree, j: int)
    requires
        f.cluster > 0,
        j >= 0,
    ensures
        need(f, t, j) >= 0,
        size_of(t, j) >= 0,
        need(f, t, j) * f.cluster >= 0,
        !(j == 0 && !f.wide) ==> need(f, t, j) * f.cluster >= size_of(t, j),
        !(j == 0 && !f.wide) && size_of(t, j) > 0 ==> need(f, t, j) > 0,
        size_of(t, j) == 0 ==> need(f, t, j) == 0,
{
    cover_fits(size_of(t, j), f.cluster);
}

pub(crate) proof fn start_grows(f: Shape, t: tree::Tree, i: nat, j: nat)
    requires
        f.cluster > 0,
        i <= j,
    ensures
        2 <= start(f, t, i) <= start(f, t, j),
    decreases j,
{
    if i < j {
        start_grows(f, t, i, (j - 1) as nat);
        need_is_natural(f, t, j - 1);
    } else if i > 0 {
        start_grows(f, t, (i - 1) as nat, (i - 1) as nat);
        need_is_natural(f, t, i - 1);
    }
}

/// Every directory but the root takes a cluster at least.
pub(crate) proof fn start_counts(f: Shape, t: tree::Tree, j: nat)
    requires
        f.cluster > 0,
        j <= t.dirs.len(),
    ensures
        start(f, t, j) >= j + 1,
    decreases j,
{
    if j > 0 {
        start_counts(f, t, (j - 1) as nat);
        need_is_natural(f, t, j - 1);
    }
}

/// An entry takes 32 bytes.
pub(crate) proof fn entry_len(wide: bool, name: Seq<u8>, attr: u8, cluster: int, size: int)
    requires
        name.len() == 11,
    ensures
        entry(wide, name, attr, cluster, size).len() == ENTRY,
{
    reveal(entry);
}

// ---- the same, executable ----

pub open spec fn indices(v: Seq<usize>) -> Seq<int> {
    Seq::new(v.len(), |i: int| v[i] as int)
}

pub open spec fn numbers(v: Seq<u32>) -> Seq<int> {
    Seq::new(v.len(), |i: int| v[i] as int)
}

pub fn push_zeros(out: &mut Vec<u8>, n: usize)
    ensures
        final(out)@ == old(out)@ + bytes::zeros(n as nat),
{
    let ghost before = out@;
    let mut i: usize = 0;
    assert(before + bytes::zeros(0) =~= before);
    while i < n
        invariant
            i <= n,
            out@ == before + bytes::zeros(i as nat),
        decreases n - i,
    {
        out.push(0);
        assert(out@ =~= before + bytes::zeros((i + 1) as nat));
        i += 1;
    }
}

fn push_entry(out: &mut Vec<u8>, wide: bool, name: &[u8; 11], attr: u8, cluster: u32, size: u32)
    ensures
        final(out)@ == old(out)@ + entry(wide, name@, attr, cluster as int, size as int),
{
    let ghost before = out@;
    bytes::push_all(out, name.as_slice());
    out.push(attr);
    push_zeros(out, 4);
    bytes::push_le16(out, FAT_EPOCH_DATE);
    bytes::push_le16(out, FAT_EPOCH_DATE);
    if wide {
        bytes::push_le16(out, (cluster / 0x1_0000) as u16);
    } else {
        bytes::push_le16(out, 0);
    }
    push_zeros(out, 2);
    bytes::push_le16(out, FAT_EPOCH_DATE);
    bytes::push_le16(out, (cluster % 0x1_0000) as u16);
    bytes::push_le32(out, size);
    proof {
        reveal(entry);
    }
    assert(out@ =~= before + entry(wide, name@, attr, cluster as int, size as int));
}

fn is_below(d: &Vec<[u8; 11]>, dir: &Vec<[u8; 11]>) -> (r: bool)
    ensures
        r == below(tree::names(d@), tree::names(dir@)),
{
    let ghost x = tree::names(d@);
    let ghost y = tree::names(dir@);
    if d.len() == 0 || d.len() - 1 != dir.len() {
        if d.len() > 0 {
            assert(x.drop_last().len() != y.len());
        }
        return false;
    }
    let mut i: usize = 0;
    while i < dir.len()
        invariant
            x == tree::names(d@),
            y == tree::names(dir@),
            d@.len() == dir@.len() + 1,
            i <= dir@.len(),
            forall|k: int| 0 <= k < i ==> x[k] == y[k],
        decreases dir@.len() - i,
    {
        if !tree::same_name(&d[i], &dir[i]) {
            assert(x.drop_last()[i as int] != y[i as int]);
            return false;
        }
        i += 1;
    }
    assert(x.drop_last() =~= y);
    true
}

fn list_subs(t: &TreeRec<'_>, k: usize) -> (r: Vec<usize>)
    requires
        k < t.dirs@.len(),
    ensures
        indices(r@) == subs_at(t@, k as int),
        forall|i: int| 0 <= i < r@.len() ==> #[trigger] r@[i] < t.dirs@.len(),
{
    let ghost dir = t@.dirs[k as int];
    let mut out: Vec<usize> = Vec::new();
    let mut j: usize = 0;
    assert(indices(out@) =~= subs(t@, dir, 0));
    while j < t.dirs.len()
        invariant
            k < t.dirs@.len(),
            j <= t.dirs@.len(),
            dir == t@.dirs[k as int],
            indices(out@) == subs(t@, dir, j as nat),
            forall|i: int| 0 <= i < out@.len() ==> #[trigger] out@[i] < t.dirs@.len(),
        decreases t.dirs@.len() - j,
    {
        assert(t@.dirs[j as int] == tree::names(t.dirs@[j as int]@));
        let ghost before = indices(out@);
        if is_below(&t.dirs[j], &t.dirs[k]) {
            out.push(j);
            assert(indices(out@) =~= before.push(j as int));
        }
        j += 1;
    }
    out
}

fn list_leaves(t: &TreeRec<'_>, k: usize) -> (r: Vec<usize>)
    requires
        k < t.dirs@.len(),
    ensures
        indices(r@) == leaves_at(t@, k as int),
        forall|i: int| 0 <= i < r@.len() ==> #[trigger] r@[i] < t.files@.len(),
{
    let ghost dir = t@.dirs[k as int];
    let mut out: Vec<usize> = Vec::new();
    let mut j: usize = 0;
    assert(indices(out@) =~= leaves(t@, dir, 0));
    while j < t.files.len()
        invariant
            k < t.dirs@.len(),
            j <= t.files@.len(),
            dir == t@.dirs[k as int],
            indices(out@) == leaves(t@, dir, j as nat),
            forall|i: int| 0 <= i < out@.len() ==> #[trigger] out@[i] < t.files@.len(),
        decreases t.files@.len() - j,
    {
        assert(t@.files[j as int] == t.files@[j as int]@);
        let ghost before = indices(out@);
        if tree::same_path(&t.files[j].dir, &t.dirs[k]) {
            out.push(j);
            assert(indices(out@) =~= before.push(j as int));
        }
        j += 1;
    }
    out
}

fn count_entries(t: &TreeRec<'_>, k: usize) -> (r: u128)
    requires
        k < t.dirs@.len(),
    ensures
        r == entry_count(t@, k as int),
        r <= 0x2_0000_0000_0000_0002,
{
    let s = list_subs(t, k);
    let l = list_leaves(t, k);
    assert(indices(s@).len() == s@.len() && indices(l@).len() == l@.len());
    s.len() as u128 + l.len() as u128 + if k == 0 {
        1u128
    } else {
        2u128
    }
}

fn full_text(f: &Form<'_>) -> (r: String)
    ensures
        r@ == full(f@),
{
    let mut m = f.what.to_owned();
    m.append(" is full: ");
    m.append(text::int_text(f.kib as i128).as_str());
    if f.wide {
        m.append(" KiB of FAT32 cannot hold these files");
    } else {
        m.append(" KiB of FAT16 cannot hold these files");
    }
    m
}

/// Where each item of a tree starts, the cluster behind the last one included.
pub open spec fn starts_ok(f: Shape, t: tree::Tree, v: Seq<u32>) -> bool {
    &&& v.len() == t.dirs.len() + t.files.len() + 1
    &&& forall|j: int| 0 <= j < v.len() ==> #[trigger] v[j] == start(f, t, j as nat)
}

/// Place everything, or say what does not fit.
pub fn arrange(f: &Form<'_>, t: &TreeRec<'_>) -> (r: Result<Vec<u32>, String>)
    requires
        f.cluster > 0,
        f.clusters < 0x4000_0000,
        t.dirs@.len() > 0,
        t.files@.len() <= usize::MAX / 32,
    ensures
        match r {
            Ok(v) => wrong(f@, t@) is None && starts_ok(f@, t@, v@),
            Err(m) => wrong(f@, t@) == Some(m@),
        },
{
    let ghost s = f@;
    let ghost g = t@;
    let nd: usize = t.dirs.len();
    let limit: u128 = f.clusters as u128 + 2;
    let mut v: Vec<u32> = Vec::new();
    v.push(2);
    let mut cur: u128 = 2;
    let mut j: usize = 0;
    while j < nd
        invariant
            s == f@,
            g == t@,
            f.cluster > 0,
            f.clusters < 0x4000_0000,
            nd == t.dirs@.len(),
            limit == f.clusters + 2,
            j <= nd,
            cur == start(s, g, j as nat),
            cur <= limit,
            v@.len() == j + 1,
            forall|i: int| 0 <= i <= j ==> #[trigger] v@[i] == start(s, g, i as nat),
        decreases nd - j,
    {
        let n: u128 = if j == 0 && !f.wide {
            0
        } else {
            let count: u128 = count_entries(t, j);
            (count * 32 + (f.cluster as u128 - 1)) / f.cluster as u128
        };
        assert(n == need(s, g, j as int));
        proof {
            start_grows(s, g, (j + 1) as nat, g.dirs.len());
        }
        if n > limit || cur + n > limit {
            return Err(full_text(f));
        }
        cur = cur + n;
        v.push(cur as u32);
        j += 1;
    }
    proof {
        start_counts(s, g, g.dirs.len());
    }
    let root_files = list_leaves(t, 0);
    let root_count: u128 = count_entries(t, 0);
    assert(indices(root_files@).len() == root_files@.len());
    let nf: usize = t.files.len();
    let mut k: usize = 0;
    loop
        invariant
            s == f@,
            g == t@,
            f.cluster > 0,
            f.clusters < 0x4000_0000,
            0 < nd == t.dirs@.len(),
            nf == t.files@.len(),
            nd + nf < usize::MAX,
            limit == f.clusters + 2,
            k <= nf,
            start(s, g, g.dirs.len()) <= limit,
            cur == start(s, g, (nd + k) as nat),
            cur <= limit,
            root_count == entry_count(g, 0),
            root_files@.len() == leaves_at(g, 0).len(),
            files_wrong(s, g, 0) == files_wrong(s, g, k as int),
            v@.len() == nd + k + 1,
            forall|i: int| 0 <= i <= nd + k ==> #[trigger] v@[i] == start(s, g, i as nat),
        decreases nf - k,
    {
        if !f.wide && k == root_files.len() && root_count > f.root_max as u128 {
            let mut m = "too many entries in the root directory of ".to_owned();
            m.append(f.what);
            return Err(m);
        }
        if k >= nf {
            return Ok(v);
        }
        assert(g.files[k as int] == t.files@[k as int]@);
        let len: usize = t.files[k].data.len();
        if len as u128 > u32::MAX as u128 {
            return Err("a file larger than 4 GiB".to_owned());
        }
        let n: u128 = (len as u128 + (f.cluster as u128 - 1)) / f.cluster as u128;
        assert(n == need(s, g, nd + k));
        if n > limit || cur + n > limit {
            return Err(full_text(f));
        }
        cur = cur + n;
        v.push(cur as u32);
        k += 1;
    }
}

pub(crate) proof fn subs_bounded(t: tree::Tree, dir: Seq<Seq<u8>>, k: nat)
    ensures
        subs(t, dir, k).len() <= k,
        forall|i: int| 0 <= i < subs(t, dir, k).len() ==> 0 <= #[trigger] subs(t, dir, k)[i] < k && below(
            t.dirs[subs(t, dir, k)[i]],
            dir,
        ),
    decreases k,
{
    if k > 0 {
        subs_bounded(t, dir, (k - 1) as nat);
    }
}

pub(crate) proof fn leaves_bounded(t: tree::Tree, dir: Seq<Seq<u8>>, k: nat)
    ensures
        leaves(t, dir, k).len() <= k,
        forall|i: int| 0 <= i < leaves(t, dir, k).len() ==> 0 <= #[trigger] leaves(t, dir, k)[i] < k && t.files[leaves(
            t,
            dir,
            k,
        )[i]].dir == dir,
    decreases k,
{
    if k > 0 {
        leaves_bounded(t, dir, (k - 1) as nat);
    }
}

fn find_place(t: &TreeRec<'_>, k: usize) -> (r: usize)
    requires
        k < t.dirs@.len(),
        t.dirs@[k as int]@.len() > 0,
    ensures
        r == place(t@.dirs, t@.dirs[k as int].drop_last(), 0),
        r <= t.dirs@.len(),
{
    let ghost want = t@.dirs[k as int].drop_last();
    let mut up = tree::copy_path(&t.dirs[k]);
    let ghost whole = tree::names(up@);
    assert(whole.len() == up@.len());
    up.pop();
    assert(tree::names(up@) =~= want);
    let mut i: usize = 0;
    while i < t.dirs.len() && !tree::same_path(&t.dirs[i], &up)
        invariant
            i <= t.dirs@.len(),
            tree::names(up@) == want,
            place(t@.dirs, want, 0) == place(t@.dirs, want, i as int),
        decreases t.dirs@.len() - i,
    {
        assert(t@.dirs[i as int] == tree::names(t.dirs@[i as int]@));
        i += 1;
    }
    assert(i < t.dirs@.len() ==> t@.dirs[i as int] == tree::names(t.dirs@[i as int]@));
    i
}

fn dot_name(n: usize) -> (r: [u8; 11])
    requires
        n <= 2,
    ensures
        r@ == dots(n as nat),
{
    let mut name = [32u8; 11];
    if n >= 1 {
        name[0] = 46;
    }
    if n >= 2 {
        name[1] = 46;
    }
    assert(name@ =~= dots(n as nat));
    name
}

fn parent_of(t: &TreeRec<'_>, v: &Vec<u32>, k: usize, f: &Form<'_>) -> (r: u32)
    requires
        0 < k < t.dirs@.len(),
        starts_ok(f@, t@, v@),
        tree_sound(t@),
    ensures
        r == parent_cluster(f@, t@, k as int),
{
    proof {
        assert(t@.dirs[k as int].len() > 0);
        assert(t@.dirs[k as int] == tree::names(t.dirs@[k as int]@));
        assert(t@.dirs.contains(t@.dirs[k as int].drop_last()));
        place_found(t@.dirs, t@.dirs[k as int].drop_last(), 0);
    }
    let p: usize = find_place(t, k);
    if p == 0 {
        0
    } else {
        v[p]
    }
}

pub(crate) proof fn place_found(dirs: Seq<Seq<Seq<u8>>>, d: Seq<Seq<u8>>, i: int)
    requires
        0 <= i,
        exists|j: int| i <= j < dirs.len() && dirs[j] == d,
    ensures
        i <= place(dirs, d, i) < dirs.len(),
        dirs[place(dirs, d, i)] == d,
    decreases dirs.len() - i,
{
    if i < dirs.len() && dirs[i] != d {
        let j = choose|j: int| i <= j < dirs.len() && dirs[j] == d;
        assert(i + 1 <= j);
        place_found(dirs, d, i + 1);
    }
}

/// What holds of the tree of a volume: the root comes first and is the only directory with no
/// name, what holds a directory is one too, and every name takes eleven bytes.
pub open spec fn tree_sound(t: tree::Tree) -> bool {
    &&& t.dirs.len() > 0
    &&& t.dirs[0].len() == 0
    &&& forall|k: int|
        0 < k < t.dirs.len() ==> (#[trigger] t.dirs[k]).len() > 0 && t.dirs.contains(t.dirs[k].drop_last())
            && t.dirs[k].last().len() == 11
    &&& forall|j: int| 0 <= j < t.files.len() ==> (#[trigger] t.files[j]).name.len() == 11
}

fn push_head(out: &mut Vec<u8>, f: &Form<'_>, t: &TreeRec<'_>, v: &Vec<u32>, k: usize)
    requires
        k < t.dirs@.len(),
        starts_ok(f@, t@, v@),
        tree_sound(t@),
    ensures
        final(out)@ == old(out)@ + head_entries(f@, t@, k as int),
{
    if k == 0 {
        push_entry(out, f.wide, &f.label, ATTR_VOLUME_ID, 0, 0);
    } else {
        let ghost before = out@;
        assert(v@[k as int] == start(f@, t@, k as nat));
        push_entry(out, f.wide, &dot_name(1), ATTR_DIRECTORY, v[k], 0);
        let ghost one = out@;
        push_entry(out, f.wide, &dot_name(2), ATTR_DIRECTORY, parent_of(t, v, k, f), 0);
        assert(out@ =~= before + head_entries(f@, t@, k as int));
    }
}

fn push_subs(out: &mut Vec<u8>, f: &Form<'_>, t: &TreeRec<'_>, v: &Vec<u32>, k: usize)
    requires
        k < t.dirs@.len(),
        starts_ok(f@, t@, v@),
    ensures
        final(out)@ == old(out)@ + dir_entries(f@, t@, subs_at(t@, k as int), subs_at(t@, k as int).len()),
{
    let ghost s = f@;
    let ghost g = t@;
    let ghost head = out@;
    let nd: usize = t.dirs.len();
    let s_ids = list_subs(t, k);
    let ghost ids = indices(s_ids@);
    proof {
        subs_bounded(g, g.dirs[k as int], g.dirs.len());
    }
    let mut i: usize = 0;
    assert(head + dir_entries(s, g, ids, 0) =~= head);
    while i < s_ids.len()
        invariant
            s == f@,
            g == t@,
            nd == t.dirs@.len(),
            ids == indices(s_ids@),
            starts_ok(s, g, v@),
            i <= s_ids@.len(),
            forall|x: int| 0 <= x < ids.len() ==> 0 <= #[trigger] ids[x] < nd && below(g.dirs[ids[x]], g.dirs[k as int]),
            out@ == head + dir_entries(s, g, ids, i as nat),
        decreases s_ids@.len() - i,
    {
        let j: usize = s_ids[i];
        assert(ids[i as int] == j);
        assert(v@[j as int] == start(s, g, j as nat));
        let ghost so_far = out@;
        let ghost path = t.dirs@[j as int]@;
        assert(g.dirs[j as int] == tree::names(path));
        assert(g.dirs[j as int].len() > 0);
        let depth: usize = t.dirs[j].len();
        assert(g.dirs[j as int].last() == path[depth - 1]@);
        push_entry(out, f.wide, &t.dirs[j][depth - 1], ATTR_DIRECTORY, v[j], 0);
        assert(out@ == so_far + dir_entry(s, g, j as int));
        assert(head + (dir_entries(s, g, ids, i as nat) + dir_entry(s, g, j as int)) =~= so_far + dir_entry(
            s,
            g,
            j as int,
        ));
        i += 1;
    }
    assert(ids.len() == i);
}

fn push_leaves(out: &mut Vec<u8>, f: &Form<'_>, t: &TreeRec<'_>, v: &Vec<u32>, k: usize)
    requires
        k < t.dirs@.len(),
        f.cluster > 0,
        starts_ok(f@, t@, v@),
        wrong(f@, t@) is None,
    ensures
        final(out)@ == old(out)@ + file_entries(f@, t@, leaves_at(t@, k as int), leaves_at(t@, k as int).len()),
{
    let ghost s = f@;
    let ghost g = t@;
    let ghost head = out@;
    let nd: usize = t.dirs.len();
    let f_ids = list_leaves(t, k);
    let ghost ids = indices(f_ids@);
    let mut i: usize = 0;
    assert(head + file_entries(s, g, ids, 0) =~= head);
    while i < f_ids.len()
        invariant
            s == f@,
            g == t@,
            f.cluster > 0,
            nd == t.dirs@.len(),
            ids == indices(f_ids@),
            starts_ok(s, g, v@),
            wrong(s, g) is None,
            i <= f_ids@.len(),
            forall|x: int| 0 <= x < f_ids@.len() ==> #[trigger] f_ids@[x] < t.files@.len(),
            out@ == head + file_entries(s, g, ids, i as nat),
        decreases f_ids@.len() - i,
    {
        let ghost n = v.len();
        let j: usize = f_ids[i];
        assert(ids[i as int] == j);
        assert(g.files[j as int] == t.files@[j as int]@);
        proof {
            nothing_wrong(s, g, 0, j as int);
        }
        assert(v@[nd + j] == start(s, g, (nd + j) as nat));
        assert(v@[nd + j + 1] == start(s, g, (nd + j + 1) as nat));
        let ghost so_far = out@;
        let first: u32 = if v[nd + j + 1] == v[nd + j] {
            0
        } else {
            v[nd + j]
        };
        assert(first == first_cluster(s, g, nd + j));
        push_entry(out, f.wide, &t.files[j].name, ATTR_ARCHIVE, first, t.files[j].data.len() as u32);
        assert(out@ == so_far + file_entry(s, g, j as int));
        assert(head + (file_entries(s, g, ids, i as nat) + file_entry(s, g, j as int)) =~= so_far + file_entry(
            s,
            g,
            j as int,
        ));
        i += 1;
    }
    assert(ids.len() == i);
}

fn push_dir(out: &mut Vec<u8>, f: &Form<'_>, t: &TreeRec<'_>, v: &Vec<u32>, k: usize)
    requires
        k < t.dirs@.len(),
        f.cluster > 0,
        starts_ok(f@, t@, v@),
        tree_sound(t@),
        wrong(f@, t@) is None,
    ensures
        final(out)@ == old(out)@ + dir_bytes(f@, t@, k as int),
{
    let ghost before = out@;
    push_head(out, f, t, v, k);
    push_subs(out, f, t, v, k);
    push_leaves(out, f, t, v, k);
    assert(out@ =~= before + dir_bytes(f@, t@, k as int));
}

pub(crate) proof fn nothing_wrong(f: Shape, t: tree::Tree, i: int, j: int)
    requires
        files_wrong(f, t, i) is None,
        0 <= i <= j < t.files.len(),
    ensures
        t.files[j].data.len() <= u32::MAX,
        start(f, t, (t.dirs.len() + j + 1) as nat) <= f.clusters + 2,
        files_wrong(f, t, j) is None,
    decreases j - i,
{
    if i < j {
        nothing_wrong(f, t, i + 1, j);
    }
}

/// The root's entries fit the region it has of its own.
pub(crate) proof fn root_fits(f: Shape, t: tree::Tree, i: int)
    requires
        files_wrong(f, t, i) is None,
        !f.wide,
        0 <= i <= leaves_at(t, 0).len() <= t.files.len(),
    ensures
        entry_count(t, 0) <= f.root_max,
    decreases leaves_at(t, 0).len() - i,
{
    if i < leaves_at(t, 0).len() {
        root_fits(f, t, i + 1);
    }
}

pub(crate) proof fn dir_bytes_len(f: Shape, t: tree::Tree, k: int)
    requires
        tree_sound(t),
        0 <= k < t.dirs.len(),
        f.label.len() == 11,
    ensures
        dir_bytes(f, t, k).len() == entry_count(t, k) * ENTRY,
{
    subs_bounded(t, t.dirs[k], t.dirs.len());
    leaves_bounded(t, t.dirs[k], t.files.len());
    dir_entries_len(f, t, subs_at(t, k), subs_at(t, k).len());
    file_entries_len(f, t, leaves_at(t, k), leaves_at(t, k).len());
    head_len(f, t, k);
}

/// A directory begins with one entry or with two.
pub(crate) proof fn head_len(f: Shape, t: tree::Tree, k: int)
    requires
        f.label.len() == 11,
    ensures
        head_entries(f, t, k).len() == if k == 0 {
            32
        } else {
            64nat
        },
{
    entry_len(f.wide, f.label, ATTR_VOLUME_ID, 0, 0);
    entry_len(f.wide, dots(1), ATTR_DIRECTORY, start(f, t, k as nat), 0);
    entry_len(f.wide, dots(2), ATTR_DIRECTORY, parent_cluster(f, t, k), 0);
}

pub(crate) proof fn dir_entries_len(f: Shape, t: tree::Tree, ids: Seq<int>, n: nat)
    requires
        tree_sound(t),
        n <= ids.len(),
        forall|i: int| 0 <= i < ids.len() ==> 0 <= #[trigger] ids[i] < t.dirs.len() && t.dirs[ids[i]].len() > 0,
    ensures
        dir_entries(f, t, ids, n).len() == n * ENTRY,
    decreases n,
{
    if n > 0 {
        dir_entries_len(f, t, ids, (n - 1) as nat);
        let j = ids[n - 1];
        entry_len(f.wide, t.dirs[j].last(), ATTR_DIRECTORY, start(f, t, j as nat), 0);
    }
}

pub(crate) proof fn file_entries_len(f: Shape, t: tree::Tree, ids: Seq<int>, n: nat)
    requires
        tree_sound(t),
        n <= ids.len(),
        forall|i: int| 0 <= i < ids.len() ==> 0 <= #[trigger] ids[i] < t.files.len(),
    ensures
        file_entries(f, t, ids, n).len() == n * ENTRY,
    decreases n,
{
    if n > 0 {
        file_entries_len(f, t, ids, (n - 1) as nat);
        let j = ids[n - 1];
        entry_len(
            f.wide,
            t.files[j].name,
            ATTR_ARCHIVE,
            first_cluster(f, t, t.dirs.len() + j),
            t.files[j].data.len() as int,
        );
    }
}

pub(crate) proof fn contents_len(f: Shape, t: tree::Tree, j: int)
    requires
        tree_sound(t),
        0 <= j < t.dirs.len() + t.files.len(),
        f.label.len() == 11,
    ensures
        contents(f, t, j).len() == size_of(t, j),
{
    if j < t.dirs.len() {
        dir_bytes_len(f, t, j);
    }
}

/// What the items before `j` take has the length of their clusters.
pub(crate) proof fn laid_len(f: Shape, t: tree::Tree, j: nat)
    requires
        tree_sound(t),
        j <= t.dirs.len() + t.files.len(),
        f.cluster > 0,
        f.label.len() == 11,
    ensures
        laid(f, t, j).len() == (start(f, t, j) - 2) * f.cluster,
    decreases j,
{
    if j > 0 {
        laid_len(f, t, (j - 1) as nat);
        need_is_natural(f, t, j - 1);
        contents_len(f, t, j - 1);
        let a = start(f, t, (j - 1) as nat) - 2;
        let n = need(f, t, j - 1);
        assert((a + n) * f.cluster == a * f.cluster + n * f.cluster) by (nonlinear_arith);
        assert(start(f, t, j) - 2 == a + n);
        assert(0 * f.cluster == 0) by (nonlinear_arith);
    } else {
        assert((2 - 2) * f.cluster == 0) by (nonlinear_arith);
        assert(laid(f, t, j) =~= seq![]);
    }
}

/// Append the clusters of every item.
pub fn push_laid(out: &mut Vec<u8>, f: &Form<'_>, t: &TreeRec<'_>, v: &Vec<u32>)
    requires
        f.cluster > 0,
        starts_ok(f@, t@, v@),
        tree_sound(t@),
        wrong(f@, t@) is None,
        f.clusters * f.cluster <= usize::MAX,
    ensures
        final(out)@ == old(out)@ + laid(f@, t@, t@.dirs.len() + t@.files.len()),
{
    let ghost s = f@;
    let ghost g = t@;
    let ghost before = out@;
    let nd: usize = t.dirs.len();
    let ghost n = v.len();
    let total: usize = v.len() - 1;
    let mut j: usize = 0;
    assert(before + laid(s, g, 0) =~= before);
    while j < total
        invariant
            s == f@,
            g == t@,
            f.cluster > 0,
            f.clusters * f.cluster <= usize::MAX,
            starts_ok(s, g, v@),
            tree_sound(g),
            wrong(s, g) is None,
            nd == t.dirs@.len(),
            total == v@.len() - 1,
            total == nd + t.files@.len(),
            j <= total,
            out@ == before + laid(s, g, j as nat),
        decreases total - j,
    {
        assert(v@[j as int] == start(s, g, j as nat));
        assert(v@[j + 1] == start(s, g, (j + 1) as nat));
        proof {
            need_is_natural(s, g, j as int);
            start_grows(s, g, 0, j as nat);
            contents_len(s, g, j as int);
            if j < nd {
                start_grows(s, g, (j + 1) as nat, g.dirs.len());
            } else {
                nothing_wrong(s, g, 0, j - nd);
            }
        }
        let ghost so_far = out@;
        let count: u32 = v[j + 1] - v[j];
        assert(count == need(s, g, j as int) <= f.clusters);
        if count > 0 {
            assert(count * f.cluster <= usize::MAX) by (nonlinear_arith)
                requires
                    count <= f.clusters,
                    f.clusters * f.cluster <= usize::MAX,
                    f.cluster > 0,
            ;
            let room: usize = count as usize * f.cluster;
            let size: usize;
            if j < nd {
                let ghost old_len = out@.len();
                let start_len: usize = out.len();
                push_dir(out, f, t, v, j);
                size = out.len() - start_len;
                assert(out@ =~= so_far + contents(s, g, j as int));
            } else {
                assert(g.files[j - nd] == t.files@[j - nd]@);
                bytes::push_all(out, t.files[j - nd].data);
                size = t.files[j - nd].data.len();
                assert(out@ =~= so_far + contents(s, g, j as int));
            }
            assert(size == size_of(g, j as int));
            push_zeros(out, room - size);
            assert(out@ =~= so_far + padded(contents(s, g, j as int), need(s, g, j as int) * s.cluster));
            assert(before + (laid(s, g, j as nat) + padded(contents(s, g, j as int), need(s, g, j as int) * s.cluster))
                =~= out@);
        }
        j += 1;
    }
}

/// The root's entries, for the region that a FAT16 volume keeps them in.
pub fn root_entries(f: &Form<'_>, t: &TreeRec<'_>, v: &Vec<u32>) -> (r: Vec<u8>)
    requires
        f.cluster > 0,
        starts_ok(f@, t@, v@),
        tree_sound(t@),
        wrong(f@, t@) is None,
    ensures
        r@ == dir_bytes(f@, t@, 0),
{
    let mut out: Vec<u8> = Vec::new();
    push_dir(&mut out, f, t, v, 0);
    assert(out@ =~= dir_bytes(f@, t@, 0));
    out
}

fn push_cell(out: &mut Vec<u8>, wide: bool, c: u32)
    requires
        !wide ==> c < 0x1_0000,
    ensures
        final(out)@ == old(out)@ + cell(wide, c as int),
{
    if wide {
        bytes::push_le32(out, c);
    } else {
        bytes::push_le16(out, c as u16);
    }
}

pub(crate) proof fn cells_len(f: Shape, t: tree::Tree, j: nat)
    requires
        f.cluster > 0,
    ensures
        cells(f, t, j).len() == start(f, t, j),
    decreases j,
{
    if j > 0 {
        cells_len(f, t, (j - 1) as nat);
        need_is_natural(f, t, j - 1);
    }
}

pub(crate) proof fn cell_bytes_len(wide: bool, c: Seq<int>, n: nat)
    ensures
        cell_bytes(wide, c, n).len() == n * if wide {
            4int
        } else {
            2int
        },
    decreases n,
{
    if n > 0 {
        cell_bytes_len(wide, c, (n - 1) as nat);
    }
}

/// The table, filled up to `size` bytes.
pub fn table(f: &Form<'_>, t: &TreeRec<'_>, v: &Vec<u32>, size: usize) -> (r: Vec<u8>)
    requires
        f.cluster > 0,
        starts_ok(f@, t@, v@),
        wrong(f@, t@) is None,
        if f.wide {
            (f.clusters + 2) * 4 <= size && f.clusters < 0x4000_0000
        } else {
            (f.clusters + 2) * 2 <= size && f.clusters < 0xFFF5
        },
    ensures
        r@ == table_bytes(f@, t@, size as int),
{
    let ghost s = f@;
    let ghost g = t@;
    let ghost all = g.dirs.len() + g.files.len();
    let end: u32 = if f.wide {
        0x0FFF_FFFF
    } else {
        0xFFFF
    };
    let media: u32 = if f.wide {
        0x0FFF_FFF8
    } else {
        0xFFF8
    };
    let ghost nv = v.len();
    let total: usize = v.len() - 1;
    let mut c: Vec<u32> = Vec::new();
    c.push(media);
    c.push(end);
    assert(numbers(c@) =~= cells(s, g, 0));
    let mut j: usize = 0;
    while j < total
        invariant
            s == f@,
            g == t@,
            f.cluster > 0,
            f.clusters < 0x4000_0000,
            end == end_mark(f.wide),
            starts_ok(s, g, v@),
            wrong(s, g) is None,
            total == v@.len() - 1,
            total == g.dirs.len() + g.files.len(),
            j <= total,
            numbers(c@) == cells(s, g, j as nat),
        decreases total - j,
    {
        assert(v@[j as int] == start(s, g, j as nat));
        assert(v@[j + 1] == start(s, g, (j + 1) as nat));
        proof {
            need_is_natural(s, g, j as int);
            if j < g.dirs.len() {
                start_grows(s, g, (j + 1) as nat, g.dirs.len());
            } else {
                nothing_wrong(s, g, 0, j - g.dirs.len());
            }
        }
        let first: u32 = v[j];
        let last: u32 = v[j + 1];
        let ghost lead = numbers(c@);
        let ghost chain = links(s.wide, first as int, last - first);
        let mut i: u32 = first;
        assert(lead + chain.subrange(0, 0) =~= lead);
        while i < last
            invariant
                first <= i <= last <= f.clusters + 2,
                f.clusters < 0x4000_0000,
                end == end_mark(f.wide),
                s == f@,
                chain == links(s.wide, first as int, last - first),
                numbers(c@) == lead + chain.subrange(0, i - first),
            decreases last - i,
        {
            let ghost before = numbers(c@);
            let x: u32 = if i + 1 == last {
                end
            } else {
                i + 1
            };
            c.push(x);
            assert(numbers(c@) =~= before.push(x as int));
            assert(chain[i - first] == x);
            assert(numbers(c@) =~= lead + chain.subrange(0, i + 1 - first));
            i += 1;
        }
        assert(chain.subrange(0, last - first) =~= chain);
        j += 1;
    }
    let ghost cs = numbers(c@);
    proof {
        cells_len(s, g, all);
        assert(v@[all as int] == start(s, g, all));
        if g.files.len() > 0 {
            nothing_wrong(s, g, 0, g.files.len() - 1);
        }
        start_grows(s, g, 0, all);
        if !s.wide {
            cells_bounded(s, g, all);
        }
    }
    let mut out: Vec<u8> = Vec::new();
    let mut i: usize = 0;
    assert(out@ =~= cell_bytes(s.wide, cs, 0));
    while i < c.len()
        invariant
            s == f@,
            cs == numbers(c@),
            i <= c@.len(),
            !s.wide ==> forall|x: int| 0 <= x < cs.len() ==> #[trigger] cs[x] < 0x1_0000,
            out@ == cell_bytes(s.wide, cs, i as nat),
        decreases c@.len() - i,
    {
        assert(cs[i as int] == c@[i as int]);
        push_cell(&mut out, f.wide, c[i]);
        i += 1;
    }
    proof {
        cell_bytes_len(s.wide, cs, cs.len());
    }
    let used: usize = out.len();
    push_zeros(&mut out, size - used);
    out
}

/// No entry of the table is larger than what ends a chain.
pub(crate) proof fn cells_bounded(f: Shape, t: tree::Tree, j: nat)
    requires
        f.cluster > 0,
        j <= t.dirs.len() + t.files.len(),
        start(f, t, t.dirs.len() + t.files.len()) <= if f.wide {
            0x0FFF_FFF7int
        } else {
            0xFFF7int
        },
    ensures
        forall|x: int| 0 <= x < cells(f, t, j).len() ==> 0 <= #[trigger] cells(f, t, j)[x] <= end_mark(f.wide),
    decreases j,
{
    if j > 0 {
        cells_bounded(f, t, (j - 1) as nat);
        need_is_natural(f, t, j - 1);
        start_grows(f, t, j, t.dirs.len() + t.files.len());
        start_grows(f, t, 0, (j - 1) as nat);
        let lead = cells(f, t, (j - 1) as nat);
        assert forall|x: int| 0 <= x < cells(f, t, j).len() implies 0 <= #[trigger] cells(f, t, j)[x] <= end_mark(
            f.wide,
        ) by {
            if x < lead.len() {
                assert(cells(f, t, j)[x] == lead[x]);
            }
        }
    }
}

} // verus!
