//! FAT32 volumes, written from scratch and read back.
//!
//! What is written is the subset a test disk needs, and no more:
//!
//! - FAT32 only, with the cluster count above the boundary that sets it apart, since that count
//!   and nothing else is what makes a volume FAT32;
//! - 8.3 names, no long-name entries;
//! - files and directories written once and never modified, so every chain is contiguous.
//!
//! Every volume is reproducible: the FAT epoch for timestamps, the serial number a parameter,
//! and entries in name order.
//!
//! The three places FAT32 differs from FAT16 are: a table entry is four bytes of which
//! twenty-eight bits are the cluster number, the root is a chain like any other directory's
//! rather than a fixed region, and an FSInfo sector carries the free count.

use vstd::prelude::*;
use vstd::string::*;

use crate::bytes;
use crate::fat::{clean, law, order, plan, read, sound, tree};
use crate::fat16;
use crate::text;

pub use crate::fat16::File;

verus! {

pub const SECTOR: usize = 512;

/// The fewest clusters a FAT32 volume may have.
pub const MIN_CLUSTERS: u32 = 65_525;

/// Where FSInfo sits, counted from the volume's first sector, and its signatures.
pub const FSINFO_SECTOR: u16 = 1;

pub const FSINFO_LEAD: u32 = 0x4161_5252;

pub const FSINFO_STRUCT: u32 = 0x6141_7272;

pub const FSINFO_TRAIL: u32 = 0xAA55_0000;

/// The root's first cluster, which this writer always places first.
pub const ROOT_CLUSTER: u32 = 2;

/// The largest table whose entries can still be counted in 32 bits.
pub const MAX_TABLE: u32 = 0x7F_FFFF;

/// A volume's shape.
pub struct Params {
    /// Sectors in the whole volume.
    pub sectors: u32,
    pub sectors_per_cluster: u8,
    /// FAT32 keeps its FSInfo and a backup boot sector in the reserved region, so this is
    /// more than one.
    pub reserved_sectors: u16,
    pub fats: u8,
    /// Sectors before the volume on its disk, recorded in the boot sector.
    pub hidden_sectors: u32,
    pub label: [u8; 11],
    pub volume_id: u32,
    /// What the volume is, for the error when the files do not fit.
    pub what: &'static str,
}

/// Where a volume's regions fall.
#[derive(Debug)]
pub struct Layout {
    pub fat_sectors: u32,
    /// The sector cluster 2 starts at, counted from the volume's first sector.
    pub data_start: u32,
    pub clusters: u32,
}

/// Where the clusters start if each table takes `n` sectors.
pub open spec fn data_start(p: Params, n: int) -> int {
    p.reserved_sectors + p.fats * n
}

/// How many clusters are left if each table takes `n` sectors.
pub open spec fn clusters(p: Params, n: int) -> int {
    (if p.sectors > data_start(p, n) {
        p.sectors - data_start(p, n)
    } else {
        0
    }) / (p.sectors_per_cluster as int)
}

/// Whether tables of `n` sectors have an entry for every cluster that is left.
pub open spec fn covers(p: Params, n: int) -> bool {
    n * SECTOR / 4 >= clusters(p, n) + 2
}

/// The smallest table, of `n` sectors or more, that covers the clusters left over after it.
pub open spec fn table_size(p: Params, n: int) -> Option<int>
    decreases MAX_TABLE + 1 - n,
{
    if n < 0 || n > MAX_TABLE {
        None
    } else if covers(p, n) {
        Some(n)
    } else {
        table_size(p, n + 1)
    }
}

/// The layout of a volume of shape `p`.
pub open spec fn layout_of(p: Params) -> Layout {
    let n = table_size(p, 1)->0;
    Layout { fat_sectors: n as u32, data_start: data_start(p, n) as u32, clusters: clusters(p, n) as u32 }
}

/// Why a volume of this shape cannot be, if it cannot.
pub open spec fn shape_wrong(p: Params) -> Option<Seq<char>> {
    if p.reserved_sectors < 2 {
        Some(p.what@ + ": FAT32 needs a reserved region for its FSInfo sector"@)
    } else if clusters(p, table_size(p, 1)->0) < MIN_CLUSTERS {
        Some(
            p.what@ + ": "@ + text::decimal(clusters(p, table_size(p, 1)->0))
                + " clusters is not FAT32 (at least 65525)"@,
        )
    } else {
        None
    }
}

proof fn data_start_bounds(p: Params, n: int)
    requires
        0 <= n <= MAX_TABLE,
    ensures
        0 <= p.fats * n <= 255 * MAX_TABLE,
{
    assert(0 <= p.fats * n <= 255 * 0x7F_FFFF) by (nonlinear_arith)
        requires
            0 <= n <= 0x7F_FFFF,
            p.fats <= 255,
    ;
}

proof fn clusters_in_room(p: Params, n: int)
    requires
        p.sectors_per_cluster > 0,
        0 <= n,
    ensures
        0 <= clusters(p, n) <= p.sectors,
        clusters(p, n) * p.sectors_per_cluster <= if p.sectors > data_start(p, n) {
            p.sectors - data_start(p, n)
        } else {
            0
        },
        p.reserved_sectors >= 2 && p.fats * n >= 0 && p.sectors >= 2 ==> clusters(p, n) <= p.sectors - 2,
{
    let d = p.sectors_per_cluster as int;
    let a = if p.sectors > data_start(p, n) {
        p.sectors - data_start(p, n)
    } else {
        0
    };
    assert(0 <= a / d <= a && (a / d) * d <= a) by (nonlinear_arith)
        requires
            0 <= a,
            d > 0,
    ;
    assert(p.fats * n >= 0) by (nonlinear_arith)
        requires
            n >= 0,
            p.fats >= 0,
    ;
}

/// The layout a volume of shape `p` has.
pub fn layout(p: &Params) -> (r: Result<Layout, String>)
    requires
        p.sectors_per_cluster > 0,
        p.reserved_sectors >= 2 ==> covers(*p, MAX_TABLE as int),
    ensures
        match r {
            Ok(l) => shape_wrong(*p) is None && l == layout_of(*p),
            Err(m) => shape_wrong(*p) == Some(m@),
        },
{
    if p.reserved_sectors < 2 {
        let mut m = p.what.to_owned();
        m.append(": FAT32 needs a reserved region for its FSInfo sector");
        return Err(m);
    }
    // The table's size depends on the cluster count, which depends on the table's size: take
    // the smallest table that covers the clusters left over after it.
    let mut n: u32 = 1;
    loop
        invariant
            p.sectors_per_cluster > 0,
            p.reserved_sectors >= 2,
            covers(*p, MAX_TABLE as int),
            1 <= n <= MAX_TABLE,
            table_size(*p, 1) == table_size(*p, n as int),
        decreases MAX_TABLE - n,
    {
        proof {
            data_start_bounds(*p, n as int);
            clusters_in_room(*p, n as int);
        }
        let start: u32 = p.reserved_sectors as u32 + p.fats as u32 * n;
        assert(start == data_start(*p, n as int));
        let rest: u32 = if p.sectors > start {
            p.sectors - start
        } else {
            0
        };
        let count: u32 = rest / p.sectors_per_cluster as u32;
        assert(count == clusters(*p, n as int));
        assert(count <= rest);
        if n * 512 / 4 >= count + 2 {
            // The format is the cluster count and nothing else: a volume below the boundary
            // would be read as FAT16 by every reader.
            if count < MIN_CLUSTERS {
                let mut m = p.what.to_owned();
                m.append(": ");
                m.append(text::int_text(count as i128).as_str());
                m.append(" clusters is not FAT32 (at least 65525)");
                return Err(m);
            }
            return Ok(Layout { fat_sectors: n, data_start: start, clusters: count });
        }
        n = n + 1;
    }
}

// ---- writing ----

/// What the plan of a volume of shape `p` needs to know.
pub open spec fn shape(p: Params, l: Layout) -> plan::Shape {
    plan::Shape {
        wide: true,
        cluster: SECTOR * p.sectors_per_cluster,
        clusters: l.clusters as int,
        root_max: 0,
        label: p.label@,
        what: p.what@,
        kib: p.sectors as int / 2,
    }
}

/// The boot sector up to its total of sectors, which FAT16 has in the same places.
#[verifier::opaque]
pub open spec fn boot_head(p: Params) -> Seq<u8> {
    seq![0xEBu8, 0x58, 0x90] + seq![0x4Bu8, 0x49, 0x4E, 0x54, 0x41, 0x4E, 0x45, 0x20] + bytes::le16_bytes(
        SECTOR as int,
    ) + seq![p.sectors_per_cluster] + bytes::le16_bytes(p.reserved_sectors as int) + seq![p.fats]
        + bytes::le16_bytes(0) + bytes::le16_bytes(0) + seq![0xF8u8] + bytes::le16_bytes(0) + bytes::le16_bytes(63)
        + bytes::le16_bytes(255) + bytes::le32_bytes(p.hidden_sectors as int) + bytes::le32_bytes(p.sectors as int)
}

/// The rest of the boot sector, which is FAT32's own.
#[verifier::opaque]
pub open spec fn boot_tail(p: Params, l: Layout) -> Seq<u8> {
    bytes::le32_bytes(l.fat_sectors as int) + bytes::le16_bytes(0) + bytes::le16_bytes(0) + bytes::le32_bytes(
        ROOT_CLUSTER as int,
    ) + bytes::le16_bytes(FSINFO_SECTOR as int) + bytes::le16_bytes(6) + bytes::zeros(12) + seq![0x80u8, 0x00, 0x29]
        + bytes::le32_bytes(p.volume_id as int) + p.label@ + seq![0x46u8, 0x41, 0x54, 0x33, 0x32, 0x20, 0x20, 0x20]
        + bytes::zeros(420) + seq![0x55u8, 0xAA]
}

/// The boot sector.
pub open spec fn boot_sector(p: Params, l: Layout) -> Seq<u8> {
    boot_head(p) + boot_tail(p, l)
}

/// The FSInfo sector: how many clusters are free, and where to look for one.
#[verifier::opaque]
pub open spec fn fsinfo(free: int, next_free: int) -> Seq<u8> {
    bytes::le32_bytes(FSINFO_LEAD as int) + bytes::zeros(480) + bytes::le32_bytes(FSINFO_STRUCT as int)
        + bytes::le32_bytes(free) + bytes::le32_bytes(next_free) + bytes::zeros(12) + bytes::le32_bytes(
        FSINFO_TRAIL as int,
    )
}

/// The volume: the reserved sectors, the tables, and the clusters.
pub open spec fn image(p: Params, l: Layout, t: tree::Tree) -> Seq<u8> {
    let f = shape(p, l);
    let all = t.dirs.len() + t.files.len();
    let next = plan::start(f, t, all);
    plan::padded(
        boot_sector(p, l) + fsinfo(l.clusters + 2 - next, next) + bytes::zeros(
            ((p.reserved_sectors - 2) * SECTOR) as nat,
        ) + plan::copies(plan::table_bytes(f, t, l.fat_sectors * SECTOR), p.fats as nat) + plan::laid(f, t, all),
        p.sectors * SECTOR,
    )
}

/// The volume of shape `p` that holds `files`, or why it cannot be.
pub open spec fn volume_of(files: Seq<tree::Item>, p: Params) -> Result<Seq<u8>, Seq<char>> {
    let l = layout_of(p);
    match tree::planted(files, p.what@, files.len()) {
        Err(m) => Err(m),
        Ok(t) => match shape_wrong(p) {
            Some(m) => Err(m),
            None => match plan::wrong(shape(p, l), t) {
                Some(m) => Err(m),
                None => Ok(image(p, l, t)),
            },
        },
    }
}

fn push_boot_head(s: &mut Vec<u8>, p: &Params)
    ensures
        final(s)@ == old(s)@ + boot_head(*p),
        boot_head(*p).len() == 36,
{
    let ghost before = s@;
    bytes::push_all(s, [0xEBu8, 0x58, 0x90].as_slice());
    bytes::push_all(s, [0x4Bu8, 0x49, 0x4E, 0x54, 0x41, 0x4E, 0x45, 0x20].as_slice());
    bytes::push_le16(s, 512);
    s.push(p.sectors_per_cluster);
    bytes::push_le16(s, p.reserved_sectors);
    s.push(p.fats);
    // A FAT32 volume has no fixed root region and no 16-bit table size: both fields are zero
    // and the 32-bit ones carry the truth.
    bytes::push_le16(s, 0);
    bytes::push_le16(s, 0);
    s.push(0xF8);
    bytes::push_le16(s, 0);
    bytes::push_le16(s, 63);
    bytes::push_le16(s, 255);
    bytes::push_le32(s, p.hidden_sectors);
    bytes::push_le32(s, p.sectors);
    proof {
        reveal(boot_head);
    }
    assert(s@ =~= before + boot_head(*p));
}

fn push_boot_tail(s: &mut Vec<u8>, l: &Layout, p: &Params)
    ensures
        final(s)@ == old(s)@ + boot_tail(*p, *l),
        boot_tail(*p, *l).len() == 476,
{
    let ghost before = s@;
    bytes::push_le32(s, l.fat_sectors);
    bytes::push_le16(s, 0);
    bytes::push_le16(s, 0);
    bytes::push_le32(s, ROOT_CLUSTER);
    bytes::push_le16(s, FSINFO_SECTOR);
    bytes::push_le16(s, 6);
    plan::push_zeros(s, 12);
    // FAT32's extended fields sit further along than FAT16's, which is the one place a
    // reader that guessed the format from a string would go wrong.
    bytes::push_all(s, [0x80u8, 0x00, 0x29].as_slice());
    bytes::push_le32(s, p.volume_id);
    bytes::push_all(s, p.label.as_slice());
    bytes::push_all(s, [0x46u8, 0x41, 0x54, 0x33, 0x32, 0x20, 0x20, 0x20].as_slice());
    plan::push_zeros(s, 420);
    bytes::push_all(s, [0x55u8, 0xAA].as_slice());
    proof {
        reveal(boot_tail);
    }
    assert(s@ =~= before + boot_tail(*p, *l));
}

fn push_fsinfo(s: &mut Vec<u8>, free: u32, next_free: u32)
    ensures
        final(s)@ == old(s)@ + fsinfo(free as int, next_free as int),
        fsinfo(free as int, next_free as int).len() == SECTOR,
{
    let ghost before = s@;
    bytes::push_le32(s, FSINFO_LEAD);
    plan::push_zeros(s, 480);
    bytes::push_le32(s, FSINFO_STRUCT);
    bytes::push_le32(s, free);
    bytes::push_le32(s, next_free);
    plan::push_zeros(s, 12);
    bytes::push_le32(s, FSINFO_TRAIL);
    proof {
        reveal(fsinfo);
    }
    assert(s@ =~= before + fsinfo(free as int, next_free as int));
}

/// A FAT32 volume of `p`'s shape holding `files`.
pub fn volume(files: &[File<'_>], p: &Params) -> (r: Result<Vec<u8>, String>)
    requires
        p.sectors_per_cluster > 0,
        p.reserved_sectors >= 2 ==> covers(*p, MAX_TABLE as int),
        p.sectors * SECTOR <= usize::MAX,
        files@.len() <= usize::MAX / 32,
    ensures
        match r {
            Ok(v) => volume_of(tree::items(files@), *p) == Ok::<Seq<u8>, Seq<char>>(v@),
            Err(m) => volume_of(tree::items(files@), *p) == Err::<Seq<u8>, Seq<char>>(m@),
        },
{
    let ghost its = tree::items(files@);
    let t = match tree::plant(files, p.what) {
        Ok(t) => t,
        Err(m) => return Err(m),
    };
    proof {
        sound::every_file_is_planted(its, p.what@, its.len());
        assert(t@.dirs.len() == t.dirs@.len());
        assert(t@.files.len() == t.files@.len());
    }
    let l = match layout(p) {
        Ok(l) => l,
        Err(m) => return Err(m),
    };
    let cluster: usize = 512 * p.sectors_per_cluster as usize;
    let f = plan::Form {
        wide: true,
        cluster,
        clusters: l.clusters,
        root_max: 0,
        label: p.label,
        what: p.what,
        kib: p.sectors as u64 / 2,
    };
    assert(f@ == shape(*p, l));
    proof {
        layout_fits(*p);
    }
    let v = match plan::arrange(&f, &t) {
        Ok(v) => v,
        Err(m) => return Err(m),
    };
    Ok(assemble(&f, &t, &v, &l, p))
}

fn assemble(f: &plan::Form<'_>, t: &tree::TreeRec<'_>, v: &Vec<u32>, l: &Layout, p: &Params) -> (r: Vec<u8>)
    requires
        p.sectors_per_cluster > 0,
        covers(*p, MAX_TABLE as int),
        p.sectors * SECTOR <= usize::MAX,
        *l == layout_of(*p),
        shape_wrong(*p) is None,
        f@ == shape(*p, *l),
        sound::well_planted(t@),
        plan::wrong(f@, t@) is None,
        plan::starts_ok(f@, t@, v@),
    ensures
        r@ == image(*p, *l, t@),
{
    proof {
        layout_fits(*p);
        volume_fits(*p, t@);
    }
    let ghost n = v.len();
    let next: u32 = v[v.len() - 1];
    let mut out: Vec<u8> = Vec::new();
    push_boot_head(&mut out, p);
    push_boot_tail(&mut out, l, p);
    push_fsinfo(&mut out, l.clusters + 2 - next, next);
    plan::push_zeros(&mut out, (p.reserved_sectors as usize - 2) * 512);
    let table = plan::table(f, t, v, l.fat_sectors as usize * 512);
    let ghost lead = out@;
    let mut i: u8 = 0;
    assert(lead + plan::copies(table@, 0) =~= lead);
    while i < p.fats
        invariant
            i <= p.fats,
            out@ == lead + plan::copies(table@, i as nat),
        decreases p.fats - i,
    {
        let ghost so_far = out@;
        bytes::push_all(&mut out, table.as_slice());
        assert(lead + (plan::copies(table@, i as nat) + table@) =~= so_far + table@);
        i += 1;
    }
    plan::push_laid(&mut out, f, t, v);
    let whole: usize = p.sectors as usize * 512;
    let used: usize = out.len();
    assert(used <= whole);
    plan::push_zeros(&mut out, whole - used);
    assert(out@ =~= image(*p, *l, t@));
    out
}

/// A layout's table covers its clusters, and no smaller table does.
pub proof fn table_size_covers(p: Params, n: int)
    requires
        covers(p, MAX_TABLE as int),
        1 <= n <= MAX_TABLE,
    ensures
        table_size(p, n) is Some,
        n <= table_size(p, n)->0 <= MAX_TABLE,
        covers(p, table_size(p, n)->0),
        forall|m: int| n <= m < table_size(p, n)->0 ==> !#[trigger] covers(p, m),
    decreases MAX_TABLE - n,
{
    if !covers(p, n) {
        table_size_covers(p, n + 1);
    }
}

/// A layout's regions lie inside the volume, and its table has an entry for every cluster.
pub(crate) proof fn layout_fits(p: Params)
    requires
        p.sectors_per_cluster > 0,
        covers(p, MAX_TABLE as int),
        shape_wrong(p) is None,
    ensures
        ({
            let l = layout_of(p);
            &&& 1 <= l.fat_sectors <= MAX_TABLE
            &&& l.fat_sectors == table_size(p, 1)->0
            &&& l.data_start == data_start(p, l.fat_sectors as int)
            &&& l.clusters == clusters(p, l.fat_sectors as int)
            &&& l.clusters < 0x4000_0000
            &&& l.data_start < p.sectors
            &&& (l.clusters + 2) * 4 <= l.fat_sectors * SECTOR
            &&& l.clusters * (SECTOR * p.sectors_per_cluster) <= (p.sectors - l.data_start) * SECTOR
            &&& p.reserved_sectors * SECTOR + p.fats * (l.fat_sectors * SECTOR) == l.data_start * SECTOR
            &&& l.fat_sectors * SECTOR <= p.sectors * SECTOR || p.fats == 0
        }),
{
    let l = layout_of(p);
    table_size_covers(p, 1);
    let n = table_size(p, 1)->0;
    data_start_bounds(p, n);
    clusters_in_room(p, n);
    assert(l.clusters * (512 * p.sectors_per_cluster) <= (p.sectors - l.data_start) * 512) by (nonlinear_arith)
        requires
            l.clusters * p.sectors_per_cluster <= p.sectors - l.data_start,
    ;
    assert(p.fats * (n * 512) == (p.fats * n) * 512) by (nonlinear_arith);
    if p.fats > 0 {
        assert(p.fats * n >= n) by (nonlinear_arith)
            requires
                p.fats >= 1,
                n >= 0,
        ;
    }
}

/// Everything on a volume lies inside it.
pub(crate) proof fn volume_fits(p: Params, t: tree::Tree)
    requires
        p.sectors_per_cluster > 0,
        covers(p, MAX_TABLE as int),
        shape_wrong(p) is None,
        sound::well_planted(t),
        plan::wrong(shape(p, layout_of(p)), t) is None,
    ensures
        ({
            let l = layout_of(p);
            let f = shape(p, l);
            let all = t.dirs.len() + t.files.len();
            &&& plan::table_bytes(f, t, l.fat_sectors * SECTOR).len() == l.fat_sectors * SECTOR
            &&& plan::laid(f, t, all).len() <= (p.sectors - l.data_start) * SECTOR
            &&& plan::copies(plan::table_bytes(f, t, l.fat_sectors * SECTOR), p.fats as nat).len() == p.fats * (
            l.fat_sectors * SECTOR)
            &&& 2 <= plan::start(f, t, all) <= l.clusters + 2
        }),
{
    let l = layout_of(p);
    let f = shape(p, l);
    let all = t.dirs.len() + t.files.len();
    layout_fits(p);
    plan::laid_len(f, t, all);
    plan::cells_len(f, t, all);
    plan::start_grows(f, t, 0, all);
    if t.files.len() > 0 {
        plan::nothing_wrong(f, t, 0, t.files.len() - 1);
    }
    let cs = plan::cells(f, t, all);
    plan::cell_bytes_len(true, cs, cs.len());
    assert(plan::laid(f, t, all).len() <= l.clusters * f.cluster) by (nonlinear_arith)
        requires
            plan::laid(f, t, all).len() == (plan::start(f, t, all) - 2) * f.cluster,
            plan::start(f, t, all) - 2 <= l.clusters,
            f.cluster > 0,
    ;
    fat16::copies_len(plan::table_bytes(f, t, l.fat_sectors * SECTOR), p.fats as nat);
}

// ---- reading a volume back ----

/// What [`Volume::check`] found on a volume it did not call corrupt.
#[derive(Clone, Copy, PartialEq, Eq, Debug)]
pub struct Report {
    pub files: u32,
    pub dirs: u32,
    pub claimed: u32,
    /// Clusters the table allocates that no chain claims: what a crash may leave.
    pub lost: u32,
    pub fats_differ: u32,
    /// Clusters the table calls free, counted by the walk.
    pub free: u32,
    /// What the FSInfo sector says is free, when it claims to know.
    pub fsinfo_free: Option<u32>,
}

/// A FAT32 volume's bytes, with its geometry read from its boot sector.
pub struct Volume<'a> {
    pub disk: read::Disk<'a>,
    /// Where the FSInfo sector is.
    pub fsinfo: usize,
}

impl<'a> View for Volume<'a> {
    type V = read::Media;

    open spec fn view(&self) -> read::Media {
        self.disk@
    }
}

/// Whether the volume's geometry and its FSInfo sector lie inside it.
pub open spec fn sound_volume(v: Volume<'_>) -> bool {
    read::fits(v@) && v.fsinfo + SECTOR <= v@.bytes.len()
}

/// The volume that a boot sector describes.
pub open spec fn media_of(b: Seq<u8>) -> read::Media {
    let reserved = bytes::le16(b, 14);
    let fat_bytes = bytes::le32(b, 36) * SECTOR;
    let data_start = reserved * SECTOR + b[16] * fat_bytes;
    read::Media {
        bytes: b,
        wide: true,
        cluster_size: b[13] * SECTOR,
        fat_start: reserved * SECTOR,
        fats: b[16] as int,
        fat_bytes,
        root_start: 0,
        root_entries: 0,
        data_start,
        clusters: (bytes::le32(b, 32) * SECTOR - data_start) / (SECTOR as int) / (b[13] as int),
        root: bytes::le32(b, 44) % 0x1000_0000,
    }
}

/// Why `b` is no FAT32 volume, if it is none.
pub open spec fn open_wrong(b: Seq<u8>) -> Option<Seq<char>> {
    let m = media_of(b);
    let total = bytes::le32(b, 32);
    let reserved = bytes::le16(b, 14);
    let info = bytes::le16(b, 48);
    if b.len() < SECTOR || bytes::le16(b, 510) != 0xAA55 {
        Some("no boot sector at the start of the volume"@)
    } else if bytes::le16(b, 11) != SECTOR {
        Some("the volume's sectors are not 512 bytes"@)
    } else if b[13] == 0 || reserved < 2 || m.fats == 0 || m.fat_bytes == 0 {
        Some("a boot sector with a zero field"@)
    } else if bytes::le16(b, 17) != 0 {
        Some("a FAT32 volume with a fixed root directory"@)
    } else if total * SECTOR > b.len() || m.data_start >= total * SECTOR {
        Some("a volume larger than its image, or with no data region"@)
    } else if m.clusters < MIN_CLUSTERS {
        Some(text::decimal(m.clusters) + " clusters is not FAT32"@)
    } else if (m.clusters + 2) * 4 > m.fat_bytes {
        Some("a table too small for its clusters"@)
    } else if m.root < 2 || m.root >= m.clusters + 2 {
        Some("a root directory at cluster "@ + text::decimal(m.root) + ", outside the volume"@)
    } else if info == 0 || info >= reserved {
        Some("an FSInfo sector outside the reserved region"@)
    } else {
        None
    }
}

proof fn opened_fits(b: Seq<u8>)
    requires
        b.len() >= SECTOR,
        b[13] != 0,
        bytes::le16(b, 14) >= 2,
        media_of(b).fats != 0,
        media_of(b).fat_bytes != 0,
        bytes::le32(b, 32) * SECTOR <= b.len(),
        media_of(b).data_start < bytes::le32(b, 32) * SECTOR,
    ensures
        ({
            let m = media_of(b);
            &&& 0 <= m.clusters <= u32::MAX - 2
            &&& m.data_start + m.clusters * m.cluster_size <= b.len()
            &&& m.fat_start + m.fats * m.fat_bytes == m.data_start
            &&& m.fats * m.fat_bytes >= m.fat_bytes
            &&& m.fat_bytes <= b.len()
        }),
{
    let m = media_of(b);
    let d = b[13] as int;
    let a = (bytes::le32(b, 32) * SECTOR - m.data_start) / (SECTOR as int);
    assert((a / d) * (d * 512) <= a * 512 && a / d <= a && 0 <= a / d) by (nonlinear_arith)
        requires
            d > 0,
            a >= 0,
    ;
    assert(a * 512 <= bytes::le32(b, 32) * SECTOR - m.data_start);
    assert(m.fats * m.fat_bytes >= m.fat_bytes) by (nonlinear_arith)
        requires
            m.fats >= 1,
            m.fat_bytes >= 0,
    ;
}

/// What the FSInfo sector says: what is free, if it knows, or what is wrong with it.
pub open spec fn info_of(b: Seq<u8>, at: int) -> Result<Option<int>, Seq<char>> {
    let free = bytes::le32(b, at + 488);
    if bytes::le32(b, at) != FSINFO_LEAD || bytes::le32(b, at + 484) != FSINFO_STRUCT || bytes::le32(b, at + 508)
        != FSINFO_TRAIL {
        Err("an FSInfo sector without its signatures"@)
    } else if free == 0xFFFF_FFFF {
        Ok(None)
    } else {
        Ok(Some(free))
    }
}

impl<'a> Volume<'a> {
    /// Read the boot sector at the start of `bytes` and check the geometry fits.
    pub fn open(bytes: &'a [u8]) -> (r: Result<Volume<'a>, String>)
        ensures
            match r {
                Ok(v) => open_wrong(bytes@) is None && v@ == media_of(bytes@) && sound_volume(v) && v.fsinfo
                    == bytes::le16(bytes@, 48) * SECTOR,
                Err(m) => open_wrong(bytes@) == Some(m@),
            },
    {
        let ghost b = bytes@;
        if bytes.len() < 512 || bytes::get_le16(bytes, 510) != 0xAA55 {
            return Err("no boot sector at the start of the volume".to_owned());
        }
        if bytes::get_le16(bytes, 11) != 512 {
            return Err("the volume's sectors are not 512 bytes".to_owned());
        }
        let per: u64 = bytes[13] as u64;
        let reserved: u64 = bytes::get_le16(bytes, 14) as u64;
        let fats: u64 = bytes[16] as u64;
        let fat_sectors: u64 = bytes::get_le32(bytes, 36) as u64;
        let total: u64 = bytes::get_le32(bytes, 32) as u64;
        if per == 0 || reserved < 2 || fats == 0 || fat_sectors == 0 {
            return Err("a boot sector with a zero field".to_owned());
        }
        if bytes::get_le16(bytes, 17) != 0 {
            return Err("a FAT32 volume with a fixed root directory".to_owned());
        }
        assert(0 <= fats * (fat_sectors * 512) <= 255 * (0xFFFF_FFFF * 512)) by (nonlinear_arith)
            requires
                fats <= 255,
                fat_sectors <= 0xFFFF_FFFF,
        ;
        let data_start: u64 = reserved * 512 + fats * (fat_sectors * 512);
        let size: u64 = bytes.len() as u64;
        if total * 512 > size || data_start >= total * 512 {
            return Err("a volume larger than its image, or with no data region".to_owned());
        }
        proof {
            opened_fits(b);
        }
        let clusters: u64 = (total * 512 - data_start) / 512 / per;
        assert(clusters == media_of(b).clusters);
        if clusters < MIN_CLUSTERS as u64 {
            let mut m = text::int_text(clusters as i128);
            m.append(" clusters is not FAT32");
            return Err(m);
        }
        if (clusters + 2) * 4 > fat_sectors * 512 {
            return Err("a table too small for its clusters".to_owned());
        }
        let root: u32 = bytes::get_le32(bytes, 44) % 0x1000_0000;
        if root < 2 || root as u64 >= clusters + 2 {
            let mut m = "a root directory at cluster ".to_owned();
            m.append(text::int_text(root as i128).as_str());
            m.append(", outside the volume");
            return Err(m);
        }
        let info: u64 = bytes::get_le16(bytes, 48) as u64;
        if info == 0 || info >= reserved {
            return Err("an FSInfo sector outside the reserved region".to_owned());
        }
        Ok(
            Volume {
                disk: read::Disk {
                    bytes,
                    wide: true,
                    cluster_size: per as usize * 512,
                    fat_start: reserved as usize * 512,
                    fats: fats as usize,
                    fat_bytes: (fat_sectors * 512) as usize,
                    root_start: 0,
                    root_entries: 0,
                    data_start: data_start as usize,
                    clusters: clusters as u32,
                    root,
                },
                fsinfo: info as usize * 512,
            },
        )
    }

    /// Whether a walk of the volume counts no more files, directories and clusters than a report
    /// can hold.
    pub fn is_reportable(&self) -> (r: bool)
        requires
            sound_volume(*self),
        ensures
            r == read::reportable(self@),
    {
        match self.disk.survey() {
            Ok((t, _)) => t.files <= u32::MAX as u64 && t.dirs <= u32::MAX as u64 && t.claimed <= u32::MAX as u64,
            Err(_) => true,
        }
    }

    /// Walk every directory and chain, refusing what a crash must never leave. What a crash
    /// may leave — lost clusters, tables apart, an FSInfo count behind the table — is counted.
    pub fn check(&self) -> (r: Result<Report, String>)
        requires
            sound_volume(*self),
            read::reportable(self@),
        ensures
            match r {
                Ok(x) => read::surveyed(self@) is Ok && info_of(self@.bytes, self.fsinfo as int) is Ok && ({
                    let w = read::surveyed(self@)->Ok_0;
                    let rest = read::rest(self@, w.seen, self@.clusters + 2);
                    x.files == w.files && x.dirs == w.dirs && x.claimed == w.claimed && x.lost == rest.lost
                        && x.fats_differ == rest.differ && x.free == rest.free && read::opt(x.fsinfo_free) == info_of(
                        self@.bytes,
                        self.fsinfo as int,
                    )->Ok_0
                }),
                Err(m) => match read::surveyed(self@) {
                    Err(e) => m@ == e,
                    Ok(_) => info_of(self@.bytes, self.fsinfo as int) == Err::<Option<int>, Seq<char>>(m@),
                },
            },
    {
        let (t, (lost, differ, free)) = match self.disk.survey() {
            Ok(x) => x,
            Err(m) => return Err(m),
        };
        let b = self.disk.bytes;
        let ghost n = b.len();
        let said: u32 = bytes::get_le32(b, self.fsinfo + 488);
        if bytes::get_le32(b, self.fsinfo) != FSINFO_LEAD || bytes::get_le32(b, self.fsinfo + 484) != FSINFO_STRUCT
            || bytes::get_le32(b, self.fsinfo + 508) != FSINFO_TRAIL {
            return Err("an FSInfo sector without its signatures".to_owned());
        }
        Ok(
            Report {
                files: t.files as u32,
                dirs: t.dirs as u32,
                claimed: t.claimed as u32,
                lost,
                fats_differ: differ,
                free,
                fsinfo_free: if said == 0xFFFF_FFFF {
                    None
                } else {
                    Some(said)
                },
            },
        )
    }

    /// Whether `path` names anything.
    pub fn has(&self, path: &str) -> (r: Result<bool, String>)
        requires
            read::fits(self@),
        ensures
            match r {
                Ok(b) => read::find(self@, path@) is Ok && b == (read::find(self@, path@)->Ok_0 is Some),
                Err(m) => read::find(self@, path@) == Err::<Option<read::Found>, Seq<char>>(m@),
            },
    {
        self.disk.has(path)
    }

    /// The bytes of the file `path` names, `None` if nothing is there.
    pub fn read(&self, path: &str) -> (r: Result<Option<Vec<u8>>, String>)
        requires
            read::fits(self@),
        ensures
            match r {
                Ok(Some(v)) => read::read(self@, path@) == Ok::<Option<Seq<u8>>, Seq<char>>(Some(v@)),
                Ok(None) => read::read(self@, path@) == Ok::<Option<Seq<u8>>, Seq<char>>(None),
                Err(m) => read::read(self@, path@) == Err::<Option<Seq<u8>>, Seq<char>>(m@),
            },
    {
        self.disk.read(path)
    }

    /// The files directly in the directory `path` names, by name, `None` if there is none: where
    /// the path names nothing, and where it names a file.
    ///
    /// After a power cut the directory may not have reached the disk at all, which is `None`
    /// rather than an error.
    pub fn files_in(&self, path: &str) -> (r: Result<Option<Vec<(String, Vec<u8>)>>, String>)
        requires
            read::fits(self@),
        ensures
            match r {
                Ok(Some(v)) => read::files_in(self@, path@) == Ok::<
                    Option<Seq<(Seq<char>, Seq<u8>)>>,
                    Seq<char>,
                >(Some(read::file_views(v@))),
                Ok(None) => read::files_in(self@, path@) == Ok::<Option<Seq<(Seq<char>, Seq<u8>)>>, Seq<char>>(None),
                Err(m) => read::files_in(self@, path@) == Err::<Option<Seq<(Seq<char>, Seq<u8>)>>, Seq<char>>(m@),
            },
    {
        self.disk.files_in(path)
    }
}

// ---- a written volume reads back ----

proof fn boot_fields(p: Params, l: Layout)
    ensures
        ({
            let b = boot_sector(p, l);
            &&& b.len() == SECTOR
            &&& bytes::le16(b, 11) == SECTOR
            &&& b[13] == p.sectors_per_cluster
            &&& bytes::le16(b, 14) == p.reserved_sectors
            &&& b[16] == p.fats
            &&& bytes::le16(b, 17) == 0
            &&& bytes::le32(b, 32) == p.sectors
            &&& bytes::le32(b, 36) == l.fat_sectors
            &&& bytes::le32(b, 44) == ROOT_CLUSTER
            &&& bytes::le16(b, 48) == FSINFO_SECTOR
            &&& bytes::le16(b, 510) == 0xAA55
        }),
{
    head_fields(p);
    tail_fields(p, l);
    let b = boot_sector(p, l);
    let h = boot_head(p);
    let t = boot_tail(p, l);
    assert forall|i: int| 0 <= i < 36 implies b[i] == h[i] by {}
    assert forall|i: int| 36 <= i < 512 implies b[i] == t[i - 36] by {}
}

proof fn head_fields(p: Params)
    ensures
        ({
            let b = boot_head(p);
            &&& b.len() == 36
            &&& bytes::le16(b, 11) == SECTOR
            &&& b[13] == p.sectors_per_cluster
            &&& bytes::le16(b, 14) == p.reserved_sectors
            &&& b[16] == p.fats
            &&& bytes::le16(b, 17) == 0
            &&& bytes::le32(b, 32) == p.sectors
        }),
{
    reveal(boot_head);
    let b = boot_head(p);
    bytes::le16_of_bytes(p.reserved_sectors as int);
    bytes::le32_of_bytes(p.sectors as int);
    let r = bytes::le16_bytes(p.reserved_sectors as int);
    let s = bytes::le32_bytes(p.sectors as int);
    assert(b[11] == 0 && b[12] == 2);
    assert(b[14] == r[0] && b[15] == r[1]);
    assert(b[17] == 0 && b[18] == 0);
    assert(b[32] == s[0] && b[33] == s[1] && b[34] == s[2] && b[35] == s[3]);
}

proof fn tail_fields(p: Params, l: Layout)
    ensures
        ({
            let b = boot_tail(p, l);
            &&& b.len() == 476
            &&& bytes::le32(b, 0) == l.fat_sectors
            &&& bytes::le32(b, 8) == ROOT_CLUSTER
            &&& bytes::le16(b, 12) == FSINFO_SECTOR
            &&& b[474] == 0x55
            &&& b[475] == 0xAA
        }),
{
    reveal(boot_tail);
    let b = boot_tail(p, l);
    assert(p.label@.len() == 11);
    bytes::le32_of_bytes(l.fat_sectors as int);
    let n = bytes::le32_bytes(l.fat_sectors as int);
    assert(b[0] == n[0] && b[1] == n[1] && b[2] == n[2] && b[3] == n[3]);
    assert(b[8] == 2 && b[9] == 0 && b[10] == 0 && b[11] == 0);
    assert(b[12] == 1 && b[13] == 0);
}

proof fn info_fields(free: int, next: int)
    requires
        0 <= free < 0x1_0000_0000,
    ensures
        ({
            let b = fsinfo(free, next);
            &&& b.len() == SECTOR
            &&& bytes::le32(b, 0) == FSINFO_LEAD
            &&& bytes::le32(b, 484) == FSINFO_STRUCT
            &&& bytes::le32(b, 488) == free
            &&& bytes::le32(b, 508) == FSINFO_TRAIL
        }),
{
    reveal(fsinfo);
    let b = fsinfo(free, next);
    bytes::le32_of_bytes(FSINFO_LEAD as int);
    bytes::le32_of_bytes(FSINFO_STRUCT as int);
    bytes::le32_of_bytes(FSINFO_TRAIL as int);
    bytes::le32_of_bytes(free);
    let (w, x, y, z) = (
        bytes::le32_bytes(FSINFO_LEAD as int),
        bytes::le32_bytes(FSINFO_STRUCT as int),
        bytes::le32_bytes(free),
        bytes::le32_bytes(FSINFO_TRAIL as int),
    );
    assert(b[0] == w[0] && b[1] == w[1] && b[2] == w[2] && b[3] == w[3]);
    assert(b[484] == x[0] && b[485] == x[1] && b[486] == x[2] && b[487] == x[3]);
    assert(b[488] == y[0] && b[489] == y[1] && b[490] == y[2] && b[491] == y[3]);
    assert(b[508] == z[0] && b[509] == z[1] && b[510] == z[2] && b[511] == z[3]);
}

/// Whether volumes of this shape can be read back at all: their tables fit, and their clusters
/// have numbers of twenty-eight bits; they have a table, and a root whose label does not look
/// like the end of it.
pub open spec fn readable(p: Params) -> bool {
    p.sectors_per_cluster > 0 && covers(p, MAX_TABLE as int) && p.fats > 0 && p.label@[0] != 0 && layout_of(p).clusters
        < 0x0FFF_FFF5
}

proof fn image_parts(p: Params, t: tree::Tree)
    requires
        readable(p),
        shape_wrong(p) is None,
        sound::well_planted(t),
        plan::wrong(shape(p, layout_of(p)), t) is None,
    ensures
        ({
            let l = layout_of(p);
            let f = shape(p, l);
            let b = image(p, l, t);
            let all = t.dirs.len() + t.files.len();
            let tables = plan::copies(plan::table_bytes(f, t, l.fat_sectors * SECTOR), p.fats as nat);
            let laid = plan::laid(f, t, all);
            let next = plan::start(f, t, all);
            let at = p.reserved_sectors * SECTOR;
            let data = l.data_start * SECTOR;
            &&& b.len() == p.sectors * SECTOR
            &&& at + tables.len() == data
            &&& b.subrange(0, 512) == boot_sector(p, l)
            &&& b.subrange(512, 1024) == fsinfo(l.clusters + 2 - next, next)
            &&& b.subrange(at, data) == tables
            &&& b.subrange(data, data + laid.len()) == laid
            &&& data + laid.len() <= b.len()
        }),
{
    let l = layout_of(p);
    let f = shape(p, l);
    let b = image(p, l, t);
    let all = t.dirs.len() + t.files.len();
    layout_fits(p);
    volume_fits(p, t);
    boot_fields(p, l);
    let next = plan::start(f, t, all);
    info_fields(l.clusters + 2 - next, next);
    let boot = boot_sector(p, l);
    let info = fsinfo(l.clusters + 2 - next, next);
    let zero = bytes::zeros(((p.reserved_sectors - 2) * SECTOR) as nat);
    let tables = plan::copies(plan::table_bytes(f, t, l.fat_sectors * SECTOR), p.fats as nat);
    let laid = plan::laid(f, t, all);
    let at = p.reserved_sectors * SECTOR;
    let data = l.data_start * SECTOR;
    assert(b.subrange(0, 512) =~= boot);
    assert(b.subrange(512, 1024) =~= info);
    assert(b.subrange(at, data) =~= tables);
    assert(b.subrange(data, data + laid.len()) =~= laid);
}

proof fn image_opens(p: Params, t: tree::Tree)
    requires
        readable(p),
        shape_wrong(p) is None,
        sound::well_planted(t),
        plan::wrong(shape(p, layout_of(p)), t) is None,
    ensures
        ({
            let l = layout_of(p);
            let b = image(p, l, t);
            let m = media_of(b);
            &&& open_wrong(b) is None
            &&& bytes::le16(b, 48) == FSINFO_SECTOR
            &&& m.cluster_size == SECTOR * p.sectors_per_cluster
            &&& m.clusters == l.clusters
            &&& m.fats == p.fats
            &&& m.fat_start == p.reserved_sectors * SECTOR
            &&& m.fat_bytes == l.fat_sectors * SECTOR
            &&& m.data_start == l.data_start * SECTOR
            &&& m.root == ROOT_CLUSTER
            &&& read::fits(m)
        }),
{
    let l = layout_of(p);
    let b = image(p, l, t);
    layout_fits(p);
    image_parts(p, t);
    boot_fields(p, l);
    let boot = boot_sector(p, l);
    assert forall|i: int| 0 <= i < 512 implies b[i] == boot[i] by {
        assert(b.subrange(0, 512)[i] == boot[i]);
    }
    let m = media_of(b);
    assert(m.data_start == l.data_start * SECTOR);
    assert((p.sectors * 512 - l.data_start * 512) / 512 == p.sectors - l.data_start);
    assert(m.clusters == clusters(p, l.fat_sectors as int));
    opened_fits(b);
}

/// A written volume carries its plan.
#[verifier::spinoff_prover]
#[verifier::rlimit(50)]
pub(crate) proof fn image_carries(p: Params, t: tree::Tree)
    requires
        readable(p),
        shape_wrong(p) is None,
        sound::well_planted(t),
        plan::wrong(shape(p, layout_of(p)), t) is None,
    ensures
        open_wrong(image(p, layout_of(p), t)) is None,
        law::carries(media_of(image(p, layout_of(p), t)), shape(p, layout_of(p)), t),
{
    let l = layout_of(p);
    let f = shape(p, l);
    let b = image(p, l, t);
    let m = media_of(b);
    layout_fits(p);
    volume_fits(p, t);
    image_opens(p, t);
    image_parts(p, t);
    let tb = plan::table_bytes(f, t, l.fat_sectors * SECTOR);
    let tables = plan::copies(tb, p.fats as nat);
    assert forall|k: int, c: int| 0 <= k < m.fats && 0 <= c < m.clusters + 2 implies #[trigger] read::table(m, k, c)
        == law::told(f, t, c) by {
        law::table_tells(f, t, l.fat_sectors * SECTOR, c);
        law::copies_at(tb, p.fats as nat, k, 4 * c);
        law::copies_at(tb, p.fats as nat, k, 4 * c + 1);
        law::copies_at(tb, p.fats as nat, k, 4 * c + 2);
        law::copies_at(tb, p.fats as nat, k, 4 * c + 3);
        let x = k * tb.len() + 4 * c;
        let part = b.subrange(m.fat_start, m.data_start);
        assert(part[x] == tables[x]);
        assert(part[x + 1] == tables[x + 1]);
        assert(part[x + 2] == tables[x + 2]);
        assert(part[x + 3] == tables[x + 3]);
    }
}

/// Every file written on a volume reads back as it was, by its path, in whatever case.
pub proof fn written_files_read_back(files: Seq<tree::Item>, p: Params, i: int, path: Seq<char>)
    requires
        readable(p),
        volume_of(files, p) is Ok,
        0 <= i < files.len(),
        fat16::leads_to(path, files[i]),
    ensures
        open_wrong(volume_of(files, p)->Ok_0) is None,
        read::read(media_of(volume_of(files, p)->Ok_0), path) == Ok::<Option<Seq<u8>>, Seq<char>>(
            Some(files[i].data),
        ),
{
    let t = tree::planted(files, p.what@, files.len())->Ok_0;
    sound::every_file_is_planted(files, p.what@, files.len());
    image_carries(p, t);
    let m = media_of(image(p, layout_of(p), t));
    law::file_of_path_reads_back(m, shape(p, layout_of(p)), t, files[i], path);
}

/// The path of a directory that holds a file is refused: a directory cannot be read.
pub proof fn directories_are_not_read(files: Seq<tree::Item>, p: Params, i: int, path: Seq<char>)
    requires
        readable(p),
        volume_of(files, p) is Ok,
        0 <= i < files.len(),
        fat16::leads_above(path, files[i]),
    ensures
        read::read(media_of(volume_of(files, p)->Ok_0), path) == Err::<Option<Seq<u8>>, Seq<char>>(
            path + " is a directory"@,
        ),
{
    let t = tree::planted(files, p.what@, files.len())->Ok_0;
    let m = media_of(image(p, layout_of(p), t));
    let f = shape(p, layout_of(p));
    assert(law::carries(m, f, t)) by {
        sound::every_file_is_planted(files, p.what@, files.len());
        image_carries(p, t);
    }
    law::dir_of_path_is_refused(m, f, files, p.what@, i, path);
}

/// A path that leads to no file and to no directory finds nothing.
pub proof fn nothing_else_is_found(files: Seq<tree::Item>, p: Params, path: Seq<char>)
    requires
        readable(p),
        volume_of(files, p) is Ok,
        forall|i: int| 0 <= i < files.len() ==> !fat16::leads_to(path, #[trigger] files[i]) && !fat16::leads_above(path, files[i]),
    ensures
        read::read(media_of(volume_of(files, p)->Ok_0), path) == Ok::<Option<Seq<u8>>, Seq<char>>(None),
{
    let t = tree::planted(files, p.what@, files.len())->Ok_0;
    let m = media_of(image(p, layout_of(p), t));
    let f = shape(p, layout_of(p));
    assert(law::carries(m, f, t)) by {
        sound::every_file_is_planted(files, p.what@, files.len());
        image_carries(p, t);
    }
    law::stray_path_finds_nothing(m, f, files, p.what@, path);
}

/// A written volume checks clean: every file and every directory is met, nothing is lost, the
/// tables agree, every cluster is claimed or free, and the FSInfo sector says how many are
/// free. A walk descends through sixteen directories, so paths go no deeper.
pub proof fn written_volumes_check_clean(files: Seq<tree::Item>, p: Params)
    requires
        readable(p),
        volume_of(files, p) is Ok,
        forall|i: int| 0 <= i < files.len() ==> text::pieces((#[trigger] files[i]).path, '/', 0).len() <= 17,
    ensures
        ({
            let b = volume_of(files, p)->Ok_0;
            let m = media_of(b);
            let x = read::surveyed(m);
            let rest = read::rest(m, x->Ok_0.seen, m.clusters + 2);
            &&& open_wrong(b) is None
            &&& x is Ok
            &&& x->Ok_0.files == files.len()
            &&& x->Ok_0.dirs + 1 == tree::planted(files, p.what@, files.len())->Ok_0.dirs.len()
            &&& rest.lost == 0
            &&& rest.differ == 0
            &&& x->Ok_0.claimed + rest.free == m.clusters
            &&& info_of(b, bytes::le16(b, 48) * SECTOR) == Ok::<Option<int>, Seq<char>>(Some(rest.free))
        }),
{
    let t = tree::planted(files, p.what@, files.len())->Ok_0;
    let l = layout_of(p);
    let f = shape(p, l);
    let b = image(p, l, t);
    sound::every_file_is_planted(files, p.what@, files.len());
    sound::planted_is_shallow(files, p.what@, files.len(), 16);
    image_carries(p, t);
    clean::carried_plans_check_clean(media_of(b), f, t);
    layout_fits(p);
    volume_fits(p, t);
    image_opens(p, t);
    image_parts(p, t);
    let next = plan::start(f, t, t.dirs.len() + t.files.len());
    let info = fsinfo(l.clusters + 2 - next, next);
    info_fields(l.clusters + 2 - next, next);
    assert forall|i: int| 0 <= i < 512 implies b[512 + i] == #[trigger] info[i] by {
        assert(b.subrange(512, 1024)[i] == info[i]);
    }
}

/// A volume is reproducible: the same files make the same bytes, or none, in whatever order they
/// are given.
pub proof fn volumes_do_not_depend_on_the_order_of_files(a: Seq<tree::Item>, b: Seq<tree::Item>, p: Params)
    requires
        a.to_multiset() == b.to_multiset(),
    ensures
        volume_of(a, p) is Ok <==> volume_of(b, p) is Ok,
        volume_of(a, p) is Ok ==> volume_of(a, p) == volume_of(b, p),
{
    order::files_are_arranged_in_any_order(a, b, p.what@);
}

} // verus!
