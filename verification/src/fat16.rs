//! FAT16 volumes, written from scratch and read back.

use vstd::prelude::*;
use vstd::string::*;

use crate::bytes;
use crate::fat::{clean, law, names, order, plan, read, sound, tree};
use crate::text;

verus! {

pub const SECTOR: usize = 512;

/// One file to place on a volume, by a `/`-separated path of 8.3 names.
pub struct File<'a> {
    pub path: &'a str,
    pub data: &'a [u8],
}

/// Whether an 8.3 name may hold `c`.
pub open spec fn name_char(c: char) -> bool {
    text::ascii_alphanumeric(c) || c == '_' || c == '-'
}

/// `c` as an 8.3 name stores it.
pub open spec fn upper(c: char) -> u8 {
    if 'a' <= c <= 'z' {
        (c as int - 32) as u8
    } else {
        (c as int) as u8
    }
}

/// Where the first dot from `i` on stands, or the end.
pub open spec fn dot(s: Seq<char>, i: int) -> int
    decreases s.len() - i,
{
    if i < 0 || i >= s.len() || s[i] == '.' {
        i
    } else {
        dot(s, i + 1)
    }
}

/// The part of a name before its dot.
pub open spec fn stem(s: Seq<char>) -> Seq<char> {
    s.subrange(0, dot(s, 0))
}

/// The part of a name behind its dot.
pub open spec fn extension(s: Seq<char>) -> Seq<char> {
    if dot(s, 0) < s.len() {
        s.subrange(dot(s, 0) + 1, s.len() as int)
    } else {
        seq![]
    }
}

/// Whether every character may stand in an 8.3 name.
pub open spec fn all_name_chars(s: Seq<char>) -> bool {
    forall|i: int| 0 <= i < s.len() ==> name_char(#[trigger] s[i])
}

/// The eleven bytes an 8.3 name is stored as, or nothing for what is not one.
pub open spec fn stored(s: Seq<char>) -> Option<Seq<u8>> {
    let base = stem(s);
    let ext = extension(s);
    if 1 <= base.len() <= 8 && ext.len() <= 3 && all_name_chars(base) && all_name_chars(ext) {
        Some(
            Seq::new(
                11,
                |i: int|
                    if i < base.len() {
                        upper(base[i])
                    } else if 8 <= i < 8 + ext.len() {
                        upper(ext[i - 8])
                    } else {
                        0x20u8
                    },
            ),
        )
    } else {
        None
    }
}

/// What is said of a name that is not an 8.3 name.
pub open spec fn not_a_name(s: Seq<char>) -> Seq<char> {
    "`"@ + s
        + "` is not an 8.3 name: at most 8 characters, an optional extension of at most 3, letters, digits, `_` and `-` only"@
}

pub(crate) proof fn dot_bounds(s: Seq<char>, i: int)
    requires
        0 <= i <= s.len(),
    ensures
        i <= dot(s, i) <= s.len(),
        dot(s, i) < s.len() ==> s[dot(s, i)] == '.',
        forall|k: int| i <= k < dot(s, i) ==> s[k] != '.',
    decreases s.len() - i,
{
    if i < s.len() && s[i] != '.' {
        dot_bounds(s, i + 1);
    }
}

fn upper_byte(c: char) -> (r: Option<u8>)
    ensures
        match r {
            Some(b) => name_char(c) && b == upper(c),
            None => !name_char(c),
        },
{
    let n: u32 = c as u32;
    if 'a' <= c && c <= 'z' {
        Some((n - 32) as u8)
    } else if ('0' <= c && c <= '9') || ('A' <= c && c <= 'Z') || c == '_' || c == '-' {
        Some(n as u8)
    } else {
        None
    }
}

fn bad_name(component: &str) -> (r: String)
    ensures
        r@ == not_a_name(component@),
{
    let mut m = "`".to_owned();
    m.append(component);
    m.append(
        "` is not an 8.3 name: at most 8 characters, an optional extension of at most 3, letters, digits, `_` and `-` only",
    );
    m
}

/// An 8.3 name as the 11 bytes a directory entry stores.
pub fn short_name(component: &str) -> (r: Result<[u8; 11], String>)
    ensures
        match r {
            Ok(n) => stored(component@) == Some(n@),
            Err(m) => stored(component@) is None && m@ == not_a_name(component@),
        },
{
    let c = text::chars(component);
    let ghost s = component@;
    let ghost base = stem(s);
    let ghost ext = extension(s);
    let mut at: usize = 0;
    while at < c.len() && c[at] != '.'
        invariant
            c@ == s,
            at <= s.len(),
            dot(s, 0) == dot(s, at as int),
        decreases s.len() - at,
    {
        at += 1;
    }
    proof {
        dot_bounds(s, 0);
    }
    assert(at == dot(s, 0) && base.len() == at);
    let behind: usize = if at < c.len() {
        c.len() - at - 1
    } else {
        0
    };
    assert(ext.len() == behind);
    if at == 0 || at > 8 || behind > 3 {
        return Err(bad_name(component));
    }
    let mut name = [32u8; 11];
    let mut i: usize = 0;
    while i < at
        invariant
            c@ == s,
            s == component@,
            i <= at <= 8,
            at == dot(s, 0) <= s.len(),
            base == stem(s),
            ext == extension(s),
            forall|k: int| 0 <= k < i ==> name_char(#[trigger] base[k]),
            name@.len() == 11,
            forall|k: int|
                0 <= k < 11 ==> #[trigger] name@[k] == if k < i {
                    upper(base[k])
                } else {
                    0x20u8
                },
        decreases at - i,
    {
        assert(base[i as int] == s[i as int]);
        match upper_byte(c[i]) {
            Some(b) => {
                name[i] = b;
            },
            None => return Err(bad_name(component)),
        }
        i += 1;
    }
    let mut j: usize = 0;
    while j < behind
        invariant
            c@ == s,
            s == component@,
            j <= behind <= 3,
            at <= 8,
            at == dot(s, 0),
            behind > 0 ==> at + 1 + behind == s.len(),
            base == stem(s),
            base.len() == at,
            ext == extension(s),
            ext.len() == behind,
            forall|k: int| 0 <= k < j ==> name_char(#[trigger] ext[k]),
            name@.len() == 11,
            forall|k: int|
                0 <= k < 11 ==> #[trigger] name@[k] == if k < base.len() {
                    upper(base[k])
                } else if 8 <= k < 8 + j {
                    upper(ext[k - 8])
                } else {
                    0x20u8
                },
        decreases behind - j,
    {
        assert(ext[j as int] == s[at + 1 + j]);
        match upper_byte(c[at + 1 + j]) {
            Some(b) => {
                name[8 + j] = b;
            },
            None => return Err(bad_name(component)),
        }
        j += 1;
    }
    assert(name@ =~= stored(s)->0);
    Ok(name)
}

// ---- a volume's shape ----

/// A volume's shape.
pub struct Params {
    /// Sectors in the whole volume.
    pub sectors: u32,
    pub sectors_per_cluster: u8,
    pub reserved_sectors: u16,
    pub fats: u8,
    pub root_entries: u16,
    /// Sectors before the volume on its disk, recorded in the boot sector. A partition's
    /// start on a partitioned disk; where the volume sits on an unpartitioned one.
    pub hidden_sectors: u32,
    /// The eleven-byte volume label, written in the boot sector and as the root's first
    /// entry.
    pub label: [u8; 11],
    pub volume_id: u32,
    /// What the volume is, for the error when the files do not fit.
    pub what: &'static str,
}

/// Where a volume's regions fall, for a caller that must know without re-deriving it.
#[derive(Debug)]
pub struct Layout {
    pub fat_sectors: u16,
    pub root_sectors: u32,
    /// The sector cluster 2 starts at, counted from the volume's first sector.
    pub data_start: u32,
    pub clusters: u32,
}

/// How many sectors the root's region takes.
pub open spec fn root_sectors(p: Params) -> int {
    plan::cover(p.root_entries * plan::ENTRY, SECTOR as int)
}

/// Where the clusters start if each table takes `n` sectors.
pub open spec fn data_start(p: Params, n: int) -> int {
    p.reserved_sectors + p.fats * n + root_sectors(p)
}

/// How many clusters are left if each table takes `n` sectors.
pub open spec fn clusters(p: Params, n: int) -> int {
    (if p.sectors > data_start(p, n) {
        p.sectors - data_start(p, n)
    } else {
        0
    }) / (p.sectors_per_cluster as int)
}

/// Whether tables of `n` sectors have an entry for every cluster that is left.
pub open spec fn covers(p: Params, n: int) -> bool {
    n * SECTOR / 2 >= clusters(p, n) + 2
}

/// The smallest table, of `n` sectors or more, that covers the clusters left over after it.
pub open spec fn table_size(p: Params, n: int) -> Option<int>
    decreases 0x1_0000 - n,
{
    if n < 0 || n > 0xFFFF {
        None
    } else if covers(p, n) {
        Some(n)
    } else {
        table_size(p, n + 1)
    }
}

/// Why a volume of this shape cannot be, if it cannot.
pub open spec fn shape_wrong(p: Params) -> Option<Seq<char>> {
    match table_size(p, 1) {
        None => Some(p.what@ + ": no FAT size covers this volume"@),
        Some(n) => if 4085 <= clusters(p, n) < 65525 {
            None
        } else {
            Some(p.what@ + ": "@ + text::decimal(clusters(p, n)) + " clusters is not FAT16 (4085 to 65524)"@)
        },
    }
}

/// The layout of a volume of shape `p`.
pub open spec fn layout_of(p: Params) -> Layout {
    let n = table_size(p, 1)->0;
    Layout {
        fat_sectors: n as u16,
        root_sectors: root_sectors(p) as u32,
        data_start: data_start(p, n) as u32,
        clusters: clusters(p, n) as u32,
    }
}

proof fn data_start_bounds(p: Params, n: int)
    requires
        0 <= n <= 0xFFFF,
    ensures
        0 <= root_sectors(p) <= 4096,
        p.fats * n <= 255 * 0xFFFF,
        0 <= p.fats * n,
        0 <= data_start(p, n) < 0x200_0000,
{
    assert(0 <= p.fats * n <= 255 * 0xFFFF) by (nonlinear_arith)
        requires
            0 <= n <= 0xFFFF,
            p.fats <= 255,
    ;
}

proof fn clusters_shrink(p: Params, m: int, n: int)
    requires
        0 <= m <= n,
        p.sectors_per_cluster > 0,
    ensures
        0 <= clusters(p, n) <= clusters(p, m),
        clusters(p, n) * p.sectors_per_cluster <= if p.sectors > data_start(p, n) {
            p.sectors - data_start(p, n)
        } else {
            0
        },
{
    let d = p.sectors_per_cluster as int;
    assert(p.fats * m <= p.fats * n) by (nonlinear_arith)
        requires
            m <= n,
            p.fats >= 0,
    ;
    let a = if p.sectors > data_start(p, n) {
        p.sectors - data_start(p, n)
    } else {
        0
    };
    let b = if p.sectors > data_start(p, m) {
        p.sectors - data_start(p, m)
    } else {
        0
    };
    assert(0 <= a / d <= b / d && (a / d) * d <= a) by (nonlinear_arith)
        requires
            0 <= a <= b,
            d > 0,
    ;
}

/// The layout a volume of shape `p` has.
pub fn layout(p: &Params) -> (r: Result<Layout, String>)
    requires
        p.sectors_per_cluster > 0,
        clusters(*p, 1) + 2 <= u32::MAX,
    ensures
        match r {
            Ok(l) => shape_wrong(*p) is None && l == layout_of(*p),
            Err(m) => shape_wrong(*p) == Some(m@),
        },
{
    let root: u32 = (p.root_entries as u32 * 32 + 511) / 512;
    assert(root == root_sectors(*p));
    // The FAT's size depends on the cluster count, which depends on the FAT's size: take
    // the smallest FAT that covers the clusters left over after it.
    let mut n: u16 = 1;
    loop
        invariant
            p.sectors_per_cluster > 0,
            clusters(*p, 1) + 2 <= u32::MAX,
            root == root_sectors(*p),
            1 <= n,
            table_size(*p, 1) == table_size(*p, n as int),
        decreases 0x1_0000 - n,
    {
        proof {
            data_start_bounds(*p, n as int);
            clusters_shrink(*p, 1, n as int);
        }
        let start: u32 = p.reserved_sectors as u32 + p.fats as u32 * n as u32 + root;
        assert(start == data_start(*p, n as int));
        let rest: u32 = if p.sectors > start {
            p.sectors - start
        } else {
            0
        };
        let count: u32 = rest / p.sectors_per_cluster as u32;
        assert(count == clusters(*p, n as int));
        if n as u32 * 512 / 2 >= count + 2 {
            // The type of a FAT volume is its cluster count and nothing else. A shape that
            // lands outside FAT16's range would be read as FAT12 or FAT32 by every reader,
            // so it is refused here rather than written.
            if count < 4085 || count >= 65525 {
                let mut m = p.what.to_owned();
                m.append(": ");
                m.append(text::int_text(count as i128).as_str());
                m.append(" clusters is not FAT16 (4085 to 65524)");
                return Err(m);
            }
            return Ok(Layout { fat_sectors: n, root_sectors: root, data_start: start, clusters: count });
        }
        if n == 0xFFFF {
            assert(table_size(*p, n + 1) is None);
            let mut m = p.what.to_owned();
            m.append(": no FAT size covers this volume");
            return Err(m);
        }
        n = n + 1;
    }
}

// ---- writing ----

/// What the plan of a volume of shape `p` needs to know.
pub open spec fn shape(p: Params, l: Layout) -> plan::Shape {
    plan::Shape {
        wide: false,
        cluster: SECTOR * p.sectors_per_cluster,
        clusters: l.clusters as int,
        root_max: p.root_entries as int,
        label: p.label@,
        what: p.what@,
        kib: p.sectors as int / 2,
    }
}

/// The boot sector.
#[verifier::opaque]
pub open spec fn boot_sector(p: Params, l: Layout) -> Seq<u8> {
    seq![0xEBu8, 0x3C, 0x90] + seq![0x4Bu8, 0x49, 0x4E, 0x54, 0x41, 0x4E, 0x45, 0x20] + bytes::le16_bytes(
        SECTOR as int,
    ) + seq![p.sectors_per_cluster] + bytes::le16_bytes(p.reserved_sectors as int) + seq![p.fats]
        + bytes::le16_bytes(p.root_entries as int) + bytes::le16_bytes(0) + seq![0xF8u8] + bytes::le16_bytes(
        l.fat_sectors as int,
    ) + bytes::le16_bytes(63) + bytes::le16_bytes(255) + bytes::le32_bytes(p.hidden_sectors as int)
        + bytes::le32_bytes(p.sectors as int) + seq![0x80u8, 0x00, 0x29] + bytes::le32_bytes(p.volume_id as int)
        + p.label@ + seq![0x46u8, 0x41, 0x54, 0x31, 0x36, 0x20, 0x20, 0x20] + bytes::zeros(448)
        + seq![0x55u8, 0xAA]
}

/// The volume without its boot sector: the reserved sectors, the tables, the root's region, and
/// the clusters.
pub open spec fn regions(p: Params, l: Layout, t: tree::Tree) -> Seq<u8> {
    let f = shape(p, l);
    plan::padded(
        bytes::zeros((p.reserved_sectors * SECTOR) as nat) + plan::copies(
            plan::table_bytes(f, t, l.fat_sectors * SECTOR),
            p.fats as nat,
        ) + plan::padded(plan::dir_bytes(f, t, 0), l.root_sectors * SECTOR) + plan::laid(
            f,
            t,
            t.dirs.len() + t.files.len(),
        ),
        p.sectors * SECTOR,
    )
}

/// The volume. A volume with tables and no reserved sectors has them where the boot sector
/// would be.
pub open spec fn image(p: Params, l: Layout, t: tree::Tree) -> Seq<u8> {
    if p.reserved_sectors == 0 && p.fats > 0 {
        regions(p, l, t)
    } else {
        bytes::splice(regions(p, l, t), 0, boot_sector(p, l))
    }
}

/// The volume of shape `p` that holds `files`, or why it cannot be.
pub open spec fn volume_of(files: Seq<tree::Item>, p: Params) -> Result<Seq<u8>, Seq<char>> {
    let l = layout_of(p);
    match tree::planted(files, p.what@, files.len()) {
        Err(m) => Err(m),
        Ok(t) => match shape_wrong(p) {
            Some(m) => Err(m),
            None => match plan::wrong(shape(p, l), t) {
                Some(m) => Err(m),
                None => Ok(image(p, l, t)),
            },
        },
    }
}

fn push_boot(s: &mut Vec<u8>, l: &Layout, p: &Params)
    ensures
        final(s)@ == old(s)@ + boot_sector(*p, *l),
        boot_sector(*p, *l).len() == SECTOR,
{
    let ghost before = s@;
    bytes::push_all(s, [0xEBu8, 0x3C, 0x90].as_slice());
    bytes::push_all(s, [0x4Bu8, 0x49, 0x4E, 0x54, 0x41, 0x4E, 0x45, 0x20].as_slice());
    bytes::push_le16(s, 512);
    s.push(p.sectors_per_cluster);
    bytes::push_le16(s, p.reserved_sectors);
    s.push(p.fats);
    bytes::push_le16(s, p.root_entries);
    // The total always goes in the 32-bit field and the 16-bit one is zero. Either is allowed
    // for a volume that fits in 16 bits; one rule for every volume keeps their bytes stable.
    bytes::push_le16(s, 0);
    s.push(0xF8);
    bytes::push_le16(s, l.fat_sectors);
    bytes::push_le16(s, 63);
    bytes::push_le16(s, 255);
    bytes::push_le32(s, p.hidden_sectors);
    bytes::push_le32(s, p.sectors);
    bytes::push_all(s, [0x80u8, 0x00, 0x29].as_slice());
    bytes::push_le32(s, p.volume_id);
    bytes::push_all(s, p.label.as_slice());
    bytes::push_all(s, [0x46u8, 0x41, 0x54, 0x31, 0x36, 0x20, 0x20, 0x20].as_slice());
    plan::push_zeros(s, 448);
    bytes::push_all(s, [0x55u8, 0xAA].as_slice());
    proof {
        reveal(boot_sector);
    }
    assert(s@ =~= before + boot_sector(*p, *l));
}

fn push_regions(f: &plan::Form<'_>, t: &tree::TreeRec<'_>, v: &Vec<u32>, l: &Layout, p: &Params) -> (r: Vec<u8>)
    requires
        p.sectors_per_cluster > 0,
        p.sectors * SECTOR <= usize::MAX,
        *l == layout_of(*p),
        shape_wrong(*p) is None,
        f@ == shape(*p, *l),
        sound::well_planted(t@),
        plan::wrong(f@, t@) is None,
        plan::starts_ok(f@, t@, v@),
    ensures
        r@ == regions(*p, *l, t@),
{
    proof {
        volume_fits(*p, t@);
    }
    let mut out: Vec<u8> = Vec::new();
    plan::push_zeros(&mut out, p.reserved_sectors as usize * 512);
    assert(out@ =~= bytes::zeros((p.reserved_sectors * SECTOR) as nat));
    let table = plan::table(f, t, v, l.fat_sectors as usize * 512);
    let ghost lead = out@;
    let mut i: u8 = 0;
    assert(lead + plan::copies(table@, 0) =~= lead);
    while i < p.fats
        invariant
            i <= p.fats,
            out@ == lead + plan::copies(table@, i as nat),
        decreases p.fats - i,
    {
        let ghost so_far = out@;
        bytes::push_all(&mut out, table.as_slice());
        assert(lead + (plan::copies(table@, i as nat) + table@) =~= so_far + table@);
        i += 1;
    }
    let root = plan::root_entries(f, t, v);
    let room: usize = l.root_sectors as usize * 512;
    let ghost so_far = out@;
    bytes::push_all(&mut out, root.as_slice());
    plan::push_zeros(&mut out, room - root.len());
    assert(out@ =~= so_far + plan::padded(root@, room as int));
    let ghost upto = out@;
    plan::push_laid(&mut out, f, t, v);
    let whole: usize = p.sectors as usize * 512;
    let used: usize = out.len();
    assert(used <= whole);
    plan::push_zeros(&mut out, whole - used);
    out
}

/// A FAT16 volume of `p`'s shape holding `files`.
pub fn volume(files: &[File<'_>], p: &Params) -> (r: Result<Vec<u8>, String>)
    requires
        p.sectors_per_cluster > 0,
        clusters(*p, 1) + 2 <= u32::MAX,
        p.sectors * SECTOR <= usize::MAX,
        files@.len() <= usize::MAX / 32,
    ensures
        match r {
            Ok(v) => volume_of(tree::items(files@), *p) == Ok::<Seq<u8>, Seq<char>>(v@),
            Err(m) => volume_of(tree::items(files@), *p) == Err::<Seq<u8>, Seq<char>>(m@),
        },
{
    let ghost its = tree::items(files@);
    let t = match tree::plant(files, p.what) {
        Ok(t) => t,
        Err(m) => return Err(m),
    };
    proof {
        sound::every_file_is_planted(its, p.what@, its.len());
        assert(t@.dirs.len() == t.dirs@.len());
        assert(t@.files.len() == t.files@.len());
    }
    let l = match layout(p) {
        Ok(l) => l,
        Err(m) => return Err(m),
    };
    let cluster: usize = 512 * p.sectors_per_cluster as usize;
    let f = plan::Form {
        wide: false,
        cluster,
        clusters: l.clusters,
        root_max: p.root_entries as usize,
        label: p.label,
        what: p.what,
        kib: p.sectors as u64 / 2,
    };
    assert(f@ == shape(*p, l));
    let v = match plan::arrange(&f, &t) {
        Ok(v) => v,
        Err(m) => return Err(m),
    };
    proof {
        volume_fits(*p, t@);
    }
    let mut out = push_regions(&f, &t, &v, &l, p);
    if p.reserved_sectors != 0 || p.fats == 0 {
        let mut boot: Vec<u8> = Vec::new();
        push_boot(&mut boot, &l, p);
        assert(boot@ =~= boot_sector(*p, l));
        bytes::copy_at(&mut out, 0, boot.as_slice());
    }
    Ok(out)
}

/// Everything on a volume lies inside it.
pub(crate) proof fn volume_fits(p: Params, t: tree::Tree)
    requires
        p.sectors_per_cluster > 0,
        shape_wrong(p) is None,
        sound::well_planted(t),
        plan::wrong(shape(p, layout_of(p)), t) is None,
    ensures
        layout_of(p).data_start < p.sectors,
        (layout_of(p).clusters + 2) * 2 <= layout_of(p).fat_sectors * SECTOR,
        layout_of(p).clusters < 0xFFF5,
        plan::table_bytes(shape(p, layout_of(p)), t, layout_of(p).fat_sectors * SECTOR).len() == layout_of(p).fat_sectors * SECTOR,
        plan::dir_bytes(shape(p, layout_of(p)), t, 0).len() <= layout_of(p).root_sectors * SECTOR,
        plan::laid(shape(p, layout_of(p)), t, t.dirs.len() + t.files.len()).len() <= (p.sectors - layout_of(p).data_start) * SECTOR,
        layout_of(p).clusters * (SECTOR * p.sectors_per_cluster) <= (p.sectors - layout_of(p).data_start) * SECTOR,
        plan::copies(plan::table_bytes(shape(p, layout_of(p)), t, layout_of(p).fat_sectors * SECTOR), p.fats as nat).len() == p.fats * (
        layout_of(p).fat_sectors * SECTOR),
        p.reserved_sectors * SECTOR + p.fats * (layout_of(p).fat_sectors * SECTOR) + layout_of(p).root_sectors * SECTOR == layout_of(p).data_start
            * SECTOR,
        regions(p, layout_of(p), t).len() == p.sectors * SECTOR,
{
    let l = layout_of(p);
    let f = shape(p, l);
    table_size_covers(p, 1);
    let n = l.fat_sectors as int;
    let all = t.dirs.len() + t.files.len();
    table_size_covers(p, 1);
    data_start_bounds(p, n);
    clusters_shrink(p, n, n);
    plan::leaves_bounded(t, t.dirs[0], t.files.len());
    plan::root_fits(f, t, 0);
    plan::dir_bytes_len(f, t, 0);
    plan::laid_len(f, t, all);
    plan::cells_len(f, t, all);
    plan::start_grows(f, t, 0, all);
    if t.files.len() > 0 {
        plan::nothing_wrong(f, t, 0, t.files.len() - 1);
    }
    let cs = plan::cells(f, t, all);
    plan::cell_bytes_len(false, cs, cs.len());
    assert(plan::laid(f, t, all).len() <= layout_of(p).clusters * f.cluster) by (nonlinear_arith)
        requires
            plan::laid(f, t, all).len() == (plan::start(f, t, all) - 2) * f.cluster,
            plan::start(f, t, all) - 2 <= layout_of(p).clusters,
            f.cluster > 0,
    ;
    assert(layout_of(p).clusters * f.cluster <= (p.sectors - layout_of(p).data_start) * 512) by (nonlinear_arith)
        requires
            f.cluster == 512 * p.sectors_per_cluster,
            layout_of(p).clusters * p.sectors_per_cluster <= p.sectors - layout_of(p).data_start,
    ;
    copies_len(plan::table_bytes(f, t, n * SECTOR), p.fats as nat);
    assert(p.fats * (n * 512) == (p.fats * n) * 512) by (nonlinear_arith);
}

pub(crate) proof fn copies_len(s: Seq<u8>, n: nat)
    ensures
        plan::copies(s, n).len() == n * s.len(),
    decreases n,
{
    if n > 0 {
        copies_len(s, (n - 1) as nat);
        assert((n - 1) * s.len() + s.len() == n * s.len()) by (nonlinear_arith);
    } else {
        assert(0 * s.len() == 0) by (nonlinear_arith);
    }
}

/// A layout's table covers its clusters, and no smaller table does.
pub proof fn table_size_covers(p: Params, n: int)
    requires
        table_size(p, n) is Some,
        1 <= n,
    ensures
        n <= table_size(p, n)->0 <= 0xFFFF,
        covers(p, table_size(p, n)->0),
        forall|m: int| n <= m < table_size(p, n)->0 ==> !#[trigger] covers(p, m),
    decreases 0x1_0000 - n,
{
    if !covers(p, n) {
        table_size_covers(p, n + 1);
    }
}

// ---- reading a volume back ----

/// What [`Volume::check`] found on a volume it did not call corrupt.
#[derive(Clone, Copy, PartialEq, Eq, Debug)]
pub struct Report {
    pub files: u32,
    pub dirs: u32,
    /// Clusters some chain claims.
    pub claimed: u32,
    /// Clusters the first table allocates that no chain claims: what a crash may leave.
    pub lost: u32,
    /// Table entries on which the copies disagree.
    pub fats_differ: u32,
}

/// A FAT16 volume's bytes, with its geometry read from its boot sector.
pub struct Volume<'a> {
    pub disk: read::Disk<'a>,
}

impl<'a> View for Volume<'a> {
    type V = read::Media;

    open spec fn view(&self) -> read::Media {
        self.disk@
    }
}

/// The sectors of the whole volume, from whichever of the two fields has them.
pub open spec fn total_sectors(b: Seq<u8>) -> int {
    if bytes::le16(b, 19) == 0 {
        bytes::le32(b, 32)
    } else {
        bytes::le16(b, 19)
    }
}

/// The volume that a boot sector describes.
pub open spec fn media_of(b: Seq<u8>) -> read::Media {
    let reserved = bytes::le16(b, 14);
    let fat_bytes = bytes::le16(b, 22) * SECTOR;
    let root_start = reserved * SECTOR + b[16] * fat_bytes;
    let root_entries = bytes::le16(b, 17);
    let data_start = root_start + plan::cover(root_entries * plan::ENTRY, SECTOR as int) * SECTOR;
    read::Media {
        bytes: b,
        wide: false,
        cluster_size: b[13] * SECTOR,
        fat_start: reserved * SECTOR,
        fats: b[16] as int,
        fat_bytes,
        root_start,
        root_entries,
        data_start,
        clusters: (total_sectors(b) * SECTOR - data_start) / (SECTOR as int) / (b[13] as int),
        root: 0,
    }
}

/// Why `b` is no FAT16 volume, if it is none.
pub open spec fn open_wrong(b: Seq<u8>) -> Option<Seq<char>> {
    let m = media_of(b);
    if b.len() < SECTOR || bytes::le16(b, 510) != 0xAA55 {
        Some("no boot sector at the start of the volume"@)
    } else if bytes::le16(b, 11) != SECTOR {
        Some("the volume's sectors are not 512 bytes"@)
    } else if b[13] == 0 || m.fat_start == 0 || m.fats == 0 || m.fat_bytes == 0 {
        Some("a boot sector with a zero field"@)
    } else if total_sectors(b) * SECTOR > b.len() || m.data_start >= total_sectors(b) * SECTOR {
        Some("a volume larger than its image, or with no data region"@)
    } else if !(4085 <= m.clusters < 65525) {
        Some(text::decimal(m.clusters) + " clusters is not FAT16"@)
    } else if (m.clusters + 2) * 2 > m.fat_bytes {
        Some("a table too small for its clusters"@)
    } else {
        None
    }
}

proof fn opened_fits(b: Seq<u8>)
    requires
        open_wrong(b) is None,
    ensures
        read::fits(media_of(b)),
{
    let m = media_of(b);
    let d = b[13] as int;
    let a = (total_sectors(b) * SECTOR - m.data_start) / (SECTOR as int);
    assert((a / d) * (d * 512) <= a * 512) by (nonlinear_arith)
        requires
            d > 0,
            a >= 0,
    ;
    assert(a * 512 <= total_sectors(b) * SECTOR - m.data_start);
    let k = m.cluster_size / 32;
    assert(k <= 4080);
    assert((2 * m.clusters + 2) * k <= 131052 * 4080) by (nonlinear_arith)
        requires
            m.clusters < 65525,
            0 <= m.clusters,
            0 <= k <= 4080,
    ;
    assert(b[16] * m.fat_bytes >= 0) by (nonlinear_arith)
        requires
            m.fat_bytes >= 0,
            b[16] >= 0,
    ;
}

impl<'a> Volume<'a> {
    /// Read the boot sector at the start of `bytes` and check the geometry fits.
    pub fn open(bytes: &'a [u8]) -> (r: Result<Volume<'a>, String>)
        ensures
            match r {
                Ok(v) => open_wrong(bytes@) is None && v@ == media_of(bytes@) && read::fits(v@),
                Err(m) => open_wrong(bytes@) == Some(m@),
            },
    {
        let ghost b = bytes@;
        if bytes.len() < 512 || bytes::get_le16(bytes, 510) != 0xAA55 {
            return Err("no boot sector at the start of the volume".to_owned());
        }
        if bytes::get_le16(bytes, 11) != 512 {
            return Err("the volume's sectors are not 512 bytes".to_owned());
        }
        let per: u64 = bytes[13] as u64;
        let reserved: u64 = bytes::get_le16(bytes, 14) as u64;
        let fats: u64 = bytes[16] as u64;
        let root_entries: u64 = bytes::get_le16(bytes, 17) as u64;
        let fat_sectors: u64 = bytes::get_le16(bytes, 22) as u64;
        let short: u16 = bytes::get_le16(bytes, 19);
        let total: u64 = if short == 0 {
            bytes::get_le32(bytes, 32) as u64
        } else {
            short as u64
        };
        assert(total == total_sectors(b));
        if per == 0 || reserved == 0 || fats == 0 || fat_sectors == 0 {
            return Err("a boot sector with a zero field".to_owned());
        }
        assert(0 <= fats * (fat_sectors * 512) <= 255 * (65535 * 512)) by (nonlinear_arith)
            requires
                fats <= 255,
                fat_sectors <= 65535,
        ;
        let root_start: u64 = reserved * 512 + fats * (fat_sectors * 512);
        let data_start: u64 = root_start + (root_entries * 32 + 511) / 512 * 512;
        let size: u64 = bytes.len() as u64;
        if total * 512 > size || data_start >= total * 512 {
            return Err("a volume larger than its image, or with no data region".to_owned());
        }
        let clusters: u64 = (total * 512 - data_start) / 512 / per;
        assert(clusters == media_of(b).clusters);
        if clusters < 4085 || clusters >= 65525 {
            let mut m = text::int_text(clusters as i128);
            m.append(" clusters is not FAT16");
            return Err(m);
        }
        if (clusters + 2) * 2 > fat_sectors * 512 {
            return Err("a table too small for its clusters".to_owned());
        }
        proof {
            opened_fits(b);
        }
        Ok(
            Volume {
                disk: read::Disk {
                    bytes,
                    wide: false,
                    cluster_size: per as usize * 512,
                    fat_start: reserved as usize * 512,
                    fats: fats as usize,
                    fat_bytes: fat_sectors as usize * 512,
                    root_start: root_start as usize,
                    root_entries: root_entries as usize,
                    data_start: data_start as usize,
                    clusters: clusters as u32,
                    root: 0,
                },
            },
        )
    }

    /// Walk every directory and chain, refusing what a crash must never leave: a chain through
    /// a free cluster, a cluster claimed twice, a file whose chain is shorter than its size, a
    /// directory without clusters. What a crash may leave is counted.
    pub fn check(&self) -> (r: Result<Report, String>)
        requires
            read::fits(self@),
            !self@.wide,
        ensures
            match r {
                Ok(x) => read::surveyed(self@) is Ok && ({
                    let w = read::surveyed(self@)->Ok_0;
                    let rest = read::rest(self@, w.seen, self@.clusters + 2);
                    x.files == w.files && x.dirs == w.dirs && x.claimed == w.claimed && x.lost == rest.lost
                        && x.fats_differ == rest.differ
                }),
                Err(m) => read::surveyed(self@) == Err::<read::Walk, Seq<char>>(m@),
            },
    {
        match self.disk.survey() {
            Ok((t, (lost, differ, _))) => {
                proof {
                    let (n, k) = (self@.clusters, self@.cluster_size / 32);
                    assert((2 * n + 2) * k <= 131_052 * 4080) by (nonlinear_arith)
                        requires
                            0 <= n < 65525,
                            0 <= k <= 4080,
                    ;
                }
                Ok(
                    Report {
                        files: t.files as u32,
                        dirs: t.dirs as u32,
                        claimed: t.claimed as u32,
                        lost,
                        fats_differ: differ,
                    },
                )
            },
            Err(m) => Err(m),
        }
    }

    /// Whether `path` names anything.
    pub fn has(&self, path: &str) -> (r: Result<bool, String>)
        requires
            read::fits(self@),
        ensures
            match r {
                Ok(b) => read::find(self@, path@) is Ok && b == (read::find(self@, path@)->Ok_0 is Some),
                Err(m) => read::find(self@, path@) == Err::<Option<read::Found>, Seq<char>>(m@),
            },
    {
        self.disk.has(path)
    }

    /// The bytes of the file `path` names, `None` if nothing is there.
    pub fn read(&self, path: &str) -> (r: Result<Option<Vec<u8>>, String>)
        requires
            read::fits(self@),
        ensures
            match r {
                Ok(Some(v)) => read::read(self@, path@) == Ok::<Option<Seq<u8>>, Seq<char>>(Some(v@)),
                Ok(None) => read::read(self@, path@) == Ok::<Option<Seq<u8>>, Seq<char>>(None),
                Err(m) => read::read(self@, path@) == Err::<Option<Seq<u8>>, Seq<char>>(m@),
            },
    {
        self.disk.read(path)
    }

    /// The files directly in the directory `path` names, by name, `None` if there is none: where
    /// the path names nothing, and where it names a file.
    pub fn files_in(&self, path: &str) -> (r: Result<Option<Vec<(String, Vec<u8>)>>, String>)
        requires
            read::fits(self@),
        ensures
            match r {
                Ok(Some(v)) => read::files_in(self@, path@) == Ok::<
                    Option<Seq<(Seq<char>, Seq<u8>)>>,
                    Seq<char>,
                >(Some(read::file_views(v@))),
                Ok(None) => read::files_in(self@, path@) == Ok::<Option<Seq<(Seq<char>, Seq<u8>)>>, Seq<char>>(None),
                Err(m) => read::files_in(self@, path@) == Err::<Option<Seq<(Seq<char>, Seq<u8>)>>, Seq<char>>(m@),
            },
    {
        self.disk.files_in(path)
    }
}

// ---- a written volume reads back ----

proof fn boot_fields(p: Params, l: Layout)
    ensures
        ({
            let b = boot_sector(p, l);
            &&& b.len() == SECTOR
            &&& bytes::le16(b, 11) == SECTOR
            &&& b[13] == p.sectors_per_cluster
            &&& bytes::le16(b, 14) == p.reserved_sectors
            &&& b[16] == p.fats
            &&& bytes::le16(b, 17) == p.root_entries
            &&& bytes::le16(b, 19) == 0
            &&& bytes::le16(b, 22) == l.fat_sectors
            &&& bytes::le32(b, 32) == p.sectors
            &&& bytes::le16(b, 510) == 0xAA55
        }),
{
    reveal(boot_sector);
    let b = boot_sector(p, l);
    assert(p.label@.len() == 11);
    assert(b.len() == 512);
    bytes::le16_of_bytes(SECTOR as int);
    bytes::le16_of_bytes(p.reserved_sectors as int);
    bytes::le16_of_bytes(p.root_entries as int);
    bytes::le16_of_bytes(l.fat_sectors as int);
    bytes::le32_of_bytes(p.sectors as int);
    let r = bytes::le16_bytes(p.reserved_sectors as int);
    let e = bytes::le16_bytes(p.root_entries as int);
    let n = bytes::le16_bytes(l.fat_sectors as int);
    let s = bytes::le32_bytes(p.sectors as int);
    assert(b[11] == 0 && b[12] == 2);
    assert(b[14] == r[0] && b[15] == r[1]);
    assert(b[17] == e[0] && b[18] == e[1]);
    assert(b[19] == 0 && b[20] == 0);
    assert(b[22] == n[0] && b[23] == n[1]);
    assert(b[32] == s[0] && b[33] == s[1] && b[34] == s[2] && b[35] == s[3]);
    assert(b[510] == 0x55 && b[511] == 0xAA);
}

/// Whether volumes of this shape can be read back at all: they have a boot sector, a table,
/// and a root whose label does not look like the end of it.
pub open spec fn readable(p: Params) -> bool {
    p.sectors_per_cluster > 0 && p.reserved_sectors > 0 && p.fats > 0 && p.label@[0] != 0
}

proof fn image_opens(p: Params, t: tree::Tree)
    requires
        readable(p),
        shape_wrong(p) is None,
        sound::well_planted(t),
        plan::wrong(shape(p, layout_of(p)), t) is None,
    ensures
        ({
            let l = layout_of(p);
            let b = image(p, l, t);
            let m = media_of(b);
            &&& open_wrong(b) is None
            &&& m.cluster_size == SECTOR * p.sectors_per_cluster
            &&& m.clusters == l.clusters
            &&& m.fats == p.fats
            &&& m.fat_start == p.reserved_sectors * SECTOR
            &&& m.fat_bytes == l.fat_sectors * SECTOR
            &&& m.root_start == p.reserved_sectors * SECTOR + p.fats * (l.fat_sectors * SECTOR)
            &&& m.root_entries == p.root_entries
            &&& m.data_start == l.data_start * SECTOR
        }),
{
    let l = layout_of(p);
    let b = image(p, l, t);
    volume_fits(p, t);
    table_size_covers(p, 1);
    data_start_bounds(p, l.fat_sectors as int);
    boot_fields(p, l);
    let boot = boot_sector(p, l);
    assert forall|i: int| 0 <= i < 512 implies b[i] == boot[i] by {}
    let m = media_of(b);
    assert(total_sectors(b) == p.sectors);
    assert(m.data_start == l.data_start * SECTOR);
    assert((p.sectors * 512 - l.data_start * 512) / 512 == p.sectors - l.data_start);
    assert(m.clusters == clusters(p, l.fat_sectors as int));
}

proof fn image_regions(p: Params, t: tree::Tree)
    requires
        readable(p),
        shape_wrong(p) is None,
        sound::well_planted(t),
        plan::wrong(shape(p, layout_of(p)), t) is None,
    ensures
        ({
            let l = layout_of(p);
            let f = shape(p, l);
            let b = image(p, l, t);
            let tables = plan::copies(plan::table_bytes(f, t, l.fat_sectors * SECTOR), p.fats as nat);
            let laid = plan::laid(f, t, t.dirs.len() + t.files.len());
            let at = p.reserved_sectors * SECTOR;
            let root = at + p.fats * (l.fat_sectors * SECTOR);
            let data = l.data_start * SECTOR;
            &&& b.subrange(at, root) == tables
            &&& b.subrange(root, data) == plan::padded(plan::dir_bytes(f, t, 0), l.root_sectors * SECTOR)
            &&& b.subrange(data, data + laid.len()) == laid
            &&& data + laid.len() <= b.len()
        }),
{
    let l = layout_of(p);
    let f = shape(p, l);
    let b = image(p, l, t);
    let whole = regions(p, l, t);
    volume_fits(p, t);
    boot_fields(p, l);
    let zero = bytes::zeros((p.reserved_sectors * SECTOR) as nat);
    let tables = plan::copies(plan::table_bytes(f, t, l.fat_sectors * SECTOR), p.fats as nat);
    let top = plan::padded(plan::dir_bytes(f, t, 0), l.root_sectors * SECTOR);
    let laid = plan::laid(f, t, t.dirs.len() + t.files.len());
    let at = p.reserved_sectors * SECTOR;
    let root = at + p.fats * (l.fat_sectors * SECTOR);
    let data = l.data_start * SECTOR;
    assert(whole.subrange(at, root) =~= tables);
    assert(whole.subrange(root, data) =~= top);
    assert(whole.subrange(data, data + laid.len()) =~= laid);
    assert(b.subrange(at, root) =~= whole.subrange(at, root));
    assert(b.subrange(root, data) =~= whole.subrange(root, data));
    assert(b.subrange(data, data + laid.len()) =~= whole.subrange(data, data + laid.len()));
}

/// A written volume carries its plan.
#[verifier::spinoff_prover]
#[verifier::rlimit(50)]
pub(crate) proof fn image_carries(p: Params, t: tree::Tree)
    requires
        readable(p),
        shape_wrong(p) is None,
        sound::well_planted(t),
        plan::wrong(shape(p, layout_of(p)), t) is None,
    ensures
        open_wrong(image(p, layout_of(p), t)) is None,
        law::carries(media_of(image(p, layout_of(p), t)), shape(p, layout_of(p)), t),
{
    let l = layout_of(p);
    let f = shape(p, l);
    let b = image(p, l, t);
    let m = media_of(b);
    image_opens(p, t);
    image_regions(p, t);
    opened_fits(b);
    volume_fits(p, t);
    table_size_covers(p, 1);
    data_start_bounds(p, l.fat_sectors as int);
    let tb = plan::table_bytes(f, t, l.fat_sectors * SECTOR);
    let tables = plan::copies(tb, p.fats as nat);
    assert forall|k: int, c: int| 0 <= k < m.fats && 0 <= c < m.clusters + 2 implies #[trigger] read::table(m, k, c)
        == law::told(f, t, c) by {
        law::table_tells(f, t, l.fat_sectors * SECTOR, c);
        law::copies_at(tb, p.fats as nat, k, 2 * c);
        law::copies_at(tb, p.fats as nat, k, 2 * c + 1);
        let x = k * tb.len() + 2 * c;
        assert(b.subrange(m.fat_start, m.root_start)[x] == tables[x]);
        assert(b.subrange(m.fat_start, m.root_start)[x + 1] == tables[x + 1]);
    }
    let root = plan::dir_bytes(f, t, 0);
    plan::leaves_bounded(t, t.dirs[0], t.files.len());
    plan::root_fits(f, t, 0);
    plan::dir_bytes_len(f, t, 0);
    plan::cover_fits(p.root_entries * plan::ENTRY, SECTOR as int);
    let top = plan::padded(root, l.root_sectors * SECTOR);
    assert(m.bytes.subrange(m.root_start, m.root_start + m.root_entries * 32) =~= plan::padded(
        root,
        m.root_entries * 32,
    )) by {
        law::part_of_part(b, m.root_start, top, 0, m.root_entries * 32);
        assert(top.subrange(0, m.root_entries * 32) =~= plan::padded(root, m.root_entries * 32));
    }
}

/// Whether the components of a path go by the first components of the file's own path: they are
/// the same but for the case of letters, and for a dot at the end, by which nothing is found.
pub open spec fn goes_by(path: Seq<char>, f: tree::Item) -> bool {
    let comps = text::pieces(f.path, '/', 0);
    let parts = read::steps_of(path);
    &&& parts.len() <= comps.len()
    &&& forall|k: int|
        0 <= k < parts.len() ==> text::folded(#[trigger] parts[k]) == text::folded(names::tidy(comps[k]))
}

/// Whether a path leads to the file.
pub open spec fn leads_to(path: Seq<char>, f: tree::Item) -> bool {
    goes_by(path, f) && read::steps_of(path).len() == text::pieces(f.path, '/', 0).len()
}

/// Whether a path leads to a directory above the file.
pub open spec fn leads_above(path: Seq<char>, f: tree::Item) -> bool {
    goes_by(path, f) && 0 < read::steps_of(path).len() < text::pieces(f.path, '/', 0).len()
}

/// A file's own path leads to it, in whatever case and behind a slash as well, where no component
/// ends in a dot.
pub proof fn own_path_leads_to_the_file(f: tree::Item, path: Seq<char>)
    requires
        text::folded(path) == text::folded(f.path),
        forall|k: int|
            0 <= k < text::pieces(f.path, '/', 0).len() ==> stored(#[trigger] text::pieces(f.path, '/', 0)[k]) is Some
                && names::neat(text::pieces(f.path, '/', 0)[k]),
    ensures
        leads_to(path, f),
        leads_to(seq!['/'] + path, f),
{
    let comps = text::pieces(f.path, '/', 0);
    assert forall|k: int| 0 <= k < comps.len() implies (#[trigger] comps[k]).len() > 0 by {
        assert(stored(comps[k]) is Some);
        dot_bounds(comps[k], 0);
    }
    names::steps_of_own_path(f.path, path);
}

/// Every file written on a volume reads back as it was, by its path, in whatever case.
pub proof fn written_files_read_back(files: Seq<tree::Item>, p: Params, i: int, path: Seq<char>)
    requires
        readable(p),
        volume_of(files, p) is Ok,
        0 <= i < files.len(),
        leads_to(path, files[i]),
    ensures
        open_wrong(volume_of(files, p)->Ok_0) is None,
        read::read(media_of(volume_of(files, p)->Ok_0), path) == Ok::<Option<Seq<u8>>, Seq<char>>(
            Some(files[i].data),
        ),
{
    let t = tree::planted(files, p.what@, files.len())->Ok_0;
    sound::every_file_is_planted(files, p.what@, files.len());
    image_carries(p, t);
    let m = media_of(image(p, layout_of(p), t));
    law::file_of_path_reads_back(m, shape(p, layout_of(p)), t, files[i], path);
}

/// The path of a directory that holds a file is refused: a directory cannot be read.
pub proof fn directories_are_not_read(files: Seq<tree::Item>, p: Params, i: int, path: Seq<char>)
    requires
        readable(p),
        volume_of(files, p) is Ok,
        0 <= i < files.len(),
        leads_above(path, files[i]),
    ensures
        read::read(media_of(volume_of(files, p)->Ok_0), path) == Err::<Option<Seq<u8>>, Seq<char>>(
            path + " is a directory"@,
        ),
{
    let t = tree::planted(files, p.what@, files.len())->Ok_0;
    let m = media_of(image(p, layout_of(p), t));
    let f = shape(p, layout_of(p));
    assert(law::carries(m, f, t)) by {
        sound::every_file_is_planted(files, p.what@, files.len());
        image_carries(p, t);
    }
    law::dir_of_path_is_refused(m, f, files, p.what@, i, path);
}

/// A path that leads to no file and to no directory finds nothing.
pub proof fn nothing_else_is_found(files: Seq<tree::Item>, p: Params, path: Seq<char>)
    requires
        readable(p),
        volume_of(files, p) is Ok,
        forall|i: int| 0 <= i < files.len() ==> !leads_to(path, #[trigger] files[i]) && !leads_above(path, files[i]),
    ensures
        read::read(media_of(volume_of(files, p)->Ok_0), path) == Ok::<Option<Seq<u8>>, Seq<char>>(None),
{
    let t = tree::planted(files, p.what@, files.len())->Ok_0;
    let m = media_of(image(p, layout_of(p), t));
    let f = shape(p, layout_of(p));
    assert(law::carries(m, f, t)) by {
        sound::every_file_is_planted(files, p.what@, files.len());
        image_carries(p, t);
    }
    law::stray_path_finds_nothing(m, f, files, p.what@, path);
}

/// A written volume checks clean: every file and every directory is met, nothing is lost, and
/// the tables agree. A walk descends through sixteen directories, so paths go no deeper.
pub proof fn written_volumes_check_clean(files: Seq<tree::Item>, p: Params)
    requires
        readable(p),
        volume_of(files, p) is Ok,
        forall|i: int| 0 <= i < files.len() ==> text::pieces((#[trigger] files[i]).path, '/', 0).len() <= 17,
    ensures
        ({
            let m = media_of(volume_of(files, p)->Ok_0);
            let x = read::surveyed(m);
            let rest = read::rest(m, x->Ok_0.seen, m.clusters + 2);
            &&& open_wrong(volume_of(files, p)->Ok_0) is None
            &&& x is Ok
            &&& x->Ok_0.files == files.len()
            &&& x->Ok_0.dirs + 1 == tree::planted(files, p.what@, files.len())->Ok_0.dirs.len()
            &&& rest.lost == 0
            &&& rest.differ == 0
            &&& x->Ok_0.claimed + rest.free == m.clusters
        }),
{
    let t = tree::planted(files, p.what@, files.len())->Ok_0;
    sound::every_file_is_planted(files, p.what@, files.len());
    sound::planted_is_shallow(files, p.what@, files.len(), 16);
    image_carries(p, t);
    clean::carried_plans_check_clean(media_of(image(p, layout_of(p), t)), shape(p, layout_of(p)), t);
}

/// A volume is reproducible: the same files make the same bytes, or none, in whatever order they
/// are given.
pub proof fn volumes_do_not_depend_on_the_order_of_files(a: Seq<tree::Item>, b: Seq<tree::Item>, p: Params)
    requires
        a.to_multiset() == b.to_multiset(),
    ensures
        volume_of(a, p) is Ok <==> volume_of(b, p) is Ok,
        volume_of(a, p) is Ok ==> volume_of(a, p) == volume_of(b, p),
{
    order::files_are_arranged_in_any_order(a, b, p.what@);
}

} // verus!
