//! Where the fields of a FAT volume stand, said of its bytes.

use vstd::prelude::*;

use super::plan;
use crate::bytes;
use crate::fat16;
use crate::fat32;

verus! {

/// The first sector of a FAT16 volume holds its shape where every reader looks for it.
#[verifier::spinoff_prover]
#[verifier::rlimit(60)]
pub proof fn first_sectors_of_fat16_hold_the_shape(p: fat16::Params, l: fat16::Layout)
    ensures
        ({
            let b = fat16::boot_sector(p, l);
            &&& b.len() == 512
            &&& b[0] == 0xEB && b[2] == 0x90
            &&& bytes::le16(b, 11) == 512
            &&& b[13] == p.sectors_per_cluster
            &&& bytes::le16(b, 14) == p.reserved_sectors
            &&& b[16] == p.fats
            &&& bytes::le16(b, 17) == p.root_entries
            &&& bytes::le16(b, 19) == 0
            &&& b[21] == 0xF8
            &&& bytes::le16(b, 22) == l.fat_sectors
            &&& bytes::le32(b, 28) == p.hidden_sectors
            &&& bytes::le32(b, 32) == p.sectors
            &&& b[38] == 0x29
            &&& bytes::le32(b, 39) == p.volume_id
            &&& b.subrange(43, 54) == p.label@
            &&& b[510] == 0x55 && b[511] == 0xAA
        }),
{
    reveal(fat16::boot_sector);
    let b = fat16::boot_sector(p, l);
    assert(p.label@.len() == 11);
    assert(b.len() == 512);
    bytes::le16_of_bytes(512);
    bytes::le16_of_bytes(p.reserved_sectors as int);
    bytes::le16_of_bytes(p.root_entries as int);
    bytes::le16_of_bytes(l.fat_sectors as int);
    bytes::le32_of_bytes(p.hidden_sectors as int);
    bytes::le32_of_bytes(p.sectors as int);
    bytes::le32_of_bytes(p.volume_id as int);
    let r = bytes::le16_bytes(p.reserved_sectors as int);
    let e = bytes::le16_bytes(p.root_entries as int);
    let n = bytes::le16_bytes(l.fat_sectors as int);
    let h = bytes::le32_bytes(p.hidden_sectors as int);
    let s = bytes::le32_bytes(p.sectors as int);
    let v = bytes::le32_bytes(p.volume_id as int);
    assert(b[0] == 0xEB && b[2] == 0x90);
    assert(b[11] == 0 && b[12] == 2);
    assert(b[14] == r[0] && b[15] == r[1]);
    assert(b[17] == e[0] && b[18] == e[1]);
    assert(b[19] == 0 && b[20] == 0);
    assert(b[21] == 0xF8);
    assert(b[22] == n[0] && b[23] == n[1]);
    assert(b[28] == h[0] && b[29] == h[1] && b[30] == h[2] && b[31] == h[3]);
    assert(b[32] == s[0] && b[33] == s[1] && b[34] == s[2] && b[35] == s[3]);
    assert(b[38] == 0x29);
    assert(b[39] == v[0] && b[40] == v[1] && b[41] == v[2] && b[42] == v[3]);
    assert(b.subrange(43, 54) =~= p.label@);
    assert(b[510] == 0x55 && b[511] == 0xAA);
}

/// So does the first sector of a FAT32 volume, which names the first cluster of its root and the sector that
/// counts what is free.
pub proof fn first_sectors_of_fat32_hold_the_shape(p: fat32::Params, l: fat32::Layout)
    ensures
        ({
            let b = fat32::boot_sector(p, l);
            &&& b.len() == 512
            &&& b[0] == 0xEB && b[2] == 0x90
            &&& bytes::le16(b, 11) == 512
            &&& b[13] == p.sectors_per_cluster
            &&& bytes::le16(b, 14) == p.reserved_sectors
            &&& b[16] == p.fats
            &&& bytes::le16(b, 17) == 0
            &&& bytes::le16(b, 19) == 0
            &&& b[21] == 0xF8
            &&& bytes::le16(b, 22) == 0
            &&& bytes::le32(b, 28) == p.hidden_sectors
            &&& bytes::le32(b, 32) == p.sectors
            &&& bytes::le32(b, 36) == l.fat_sectors
            &&& bytes::le32(b, 44) == 2
            &&& bytes::le16(b, 48) == 1
            &&& b[66] == 0x29
            &&& bytes::le32(b, 67) == p.volume_id
            &&& b.subrange(71, 82) == p.label@
            &&& b[510] == 0x55 && b[511] == 0xAA
        }),
{
    heads_hold_the_shape(p);
    tails_hold_the_shape(p, l);
    let b = fat32::boot_sector(p, l);
    let h = fat32::boot_head(p);
    let t = fat32::boot_tail(p, l);
    assert forall|i: int| 0 <= i < 36 implies b[i] == h[i] by {}
    assert forall|i: int| 36 <= i < 512 implies b[i] == t[i - 36] by {}
    assert(b.subrange(71, 82) =~= t.subrange(35, 46));
}

proof fn heads_hold_the_shape(p: fat32::Params)
    ensures
        ({
            let b = fat32::boot_head(p);
            &&& b.len() == 36
            &&& b[0] == 0xEB && b[2] == 0x90
            &&& bytes::le16(b, 11) == 512
            &&& b[13] == p.sectors_per_cluster
            &&& bytes::le16(b, 14) == p.reserved_sectors
            &&& b[16] == p.fats
            &&& bytes::le16(b, 17) == 0
            &&& bytes::le16(b, 19) == 0
            &&& b[21] == 0xF8
            &&& bytes::le16(b, 22) == 0
            &&& bytes::le32(b, 28) == p.hidden_sectors
            &&& bytes::le32(b, 32) == p.sectors
        }),
{
    reveal(fat32::boot_head);
    let b = fat32::boot_head(p);
    bytes::le16_of_bytes(p.reserved_sectors as int);
    bytes::le32_of_bytes(p.sectors as int);
    bytes::le32_of_bytes(p.hidden_sectors as int);
    let r = bytes::le16_bytes(p.reserved_sectors as int);
    let h = bytes::le32_bytes(p.hidden_sectors as int);
    let s = bytes::le32_bytes(p.sectors as int);
    assert(b[11] == 0 && b[12] == 2);
    assert(b[14] == r[0] && b[15] == r[1]);
    assert(b[17] == 0 && b[18] == 0 && b[19] == 0 && b[20] == 0);
    assert(b[22] == 0 && b[23] == 0);
    assert(b[28] == h[0] && b[29] == h[1] && b[30] == h[2] && b[31] == h[3]);
    assert(b[32] == s[0] && b[33] == s[1] && b[34] == s[2] && b[35] == s[3]);
}

proof fn tails_hold_the_shape(p: fat32::Params, l: fat32::Layout)
    ensures
        ({
            let b = fat32::boot_tail(p, l);
            &&& b.len() == 476
            &&& bytes::le32(b, 0) == l.fat_sectors
            &&& bytes::le32(b, 8) == 2
            &&& bytes::le16(b, 12) == 1
            &&& b[30] == 0x29
            &&& bytes::le32(b, 31) == p.volume_id
            &&& b.subrange(35, 46) == p.label@
            &&& b[474] == 0x55
            &&& b[475] == 0xAA
        }),
{
    reveal(fat32::boot_tail);
    let b = fat32::boot_tail(p, l);
    assert(p.label@.len() == 11);
    bytes::le32_of_bytes(l.fat_sectors as int);
    bytes::le32_of_bytes(p.volume_id as int);
    let n = bytes::le32_bytes(l.fat_sectors as int);
    let v = bytes::le32_bytes(p.volume_id as int);
    assert(b[0] == n[0] && b[1] == n[1] && b[2] == n[2] && b[3] == n[3]);
    assert(b[8] == 2 && b[9] == 0 && b[10] == 0 && b[11] == 0);
    assert(b[12] == 1 && b[13] == 0);
    assert(b[30] == 0x29);
    assert(b[31] == v[0] && b[32] == v[1] && b[33] == v[2] && b[34] == v[3]);
    assert(b.subrange(35, 46) =~= p.label@);
}

/// The sector that counts what is free is known by three words, and holds how many clusters are free and
/// which to look at first.
pub proof fn free_clusters_are_counted_in_place(free: int, next: int)
    requires
        0 <= free < 0x1_0000_0000,
        0 <= next < 0x1_0000_0000,
    ensures
        ({
            let b = fat32::fsinfo(free, next);
            &&& b.len() == 512
            &&& bytes::le32(b, 0) == 0x4161_5252
            &&& bytes::le32(b, 484) == 0x6141_7272
            &&& bytes::le32(b, 488) == free
            &&& bytes::le32(b, 492) == next
            &&& b[510] == 0x55 && b[511] == 0xAA
        }),
{
    reveal(fat32::fsinfo);
    let b = fat32::fsinfo(free, next);
    bytes::le32_of_bytes(0x4161_5252);
    bytes::le32_of_bytes(0x6141_7272);
    bytes::le32_of_bytes(0xAA55_0000);
    bytes::le32_of_bytes(free);
    bytes::le32_of_bytes(next);
    let (w, x, z) = (bytes::le32_bytes(0x4161_5252), bytes::le32_bytes(0x6141_7272), bytes::le32_bytes(0xAA55_0000));
    let (f, n) = (bytes::le32_bytes(free), bytes::le32_bytes(next));
    assert(b[0] == w[0] && b[1] == w[1] && b[2] == w[2] && b[3] == w[3]);
    assert(b[484] == x[0] && b[485] == x[1] && b[486] == x[2] && b[487] == x[3]);
    assert(b[488] == f[0] && b[489] == f[1] && b[490] == f[2] && b[491] == f[3]);
    assert(b[492] == n[0] && b[493] == n[1] && b[494] == n[2] && b[495] == n[3]);
    assert(b[510] == z[2] && b[511] == z[3]);
}

/// An entry of a directory holds the name, the attributes, the first cluster in two halves and the size
/// where every reader looks for them.
#[verifier::spinoff_prover]
#[verifier::rlimit(60)]
pub proof fn entries_hold_their_fields(wide: bool, name: Seq<u8>, attr: u8, cluster: int, size: int)
    requires
        name.len() == 11,
        0 <= cluster < if wide {
            0x1_0000_0000int
        } else {
            0x1_0000int
        },
        0 <= size < 0x1_0000_0000,
    ensures
        ({
            let e = plan::entry(wide, name, attr, cluster, size);
            &&& e.len() == 32
            &&& e.subrange(0, 11) == name
            &&& e[11] == attr
            &&& bytes::le16(e, 20) * 0x1_0000 + bytes::le16(e, 26) == cluster
            &&& bytes::le32(e, 28) == size
        }),
{
    reveal(plan::entry);
    let e = plan::entry(wide, name, attr, cluster, size);
    let half = if wide {
        cluster / 0x1_0000
    } else {
        0
    };
    bytes::le16_of_bytes(half);
    bytes::le16_of_bytes(cluster % 0x1_0000);
    bytes::le32_of_bytes(size);
    let (hi, lo, sz) = (bytes::le16_bytes(half), bytes::le16_bytes(cluster % 0x1_0000), bytes::le32_bytes(size));
    assert(e.len() == 32);
    assert(e.subrange(0, 11) =~= name);
    assert(e[11] == attr);
    assert(e[20] == hi[0] && e[21] == hi[1]);
    assert(e[26] == lo[0] && e[27] == lo[1]);
    assert(e[28] == sz[0] && e[29] == sz[1] && e[30] == sz[2] && e[31] == sz[3]);
}

/// A table holds two bytes for each cluster of a FAT16 volume and four for each of a FAT32 volume, in the
/// order of the clusters.
pub proof fn cells_stand_at_their_cluster(c: Seq<int>, n: nat, i: int)
    requires
        0 <= i < n <= c.len(),
        forall|k: int| 0 <= k < n ==> 0 <= #[trigger] c[k] < 0x1_0000,
    ensures
        plan::cell_bytes(false, c, n).len() == 2 * n,
        plan::cell_bytes(true, c, n).len() == 4 * n,
        bytes::le16(plan::cell_bytes(false, c, n), 2 * i) == c[i],
        bytes::le32(plan::cell_bytes(true, c, n), 4 * i) == c[i],
    decreases n,
{
    let (a, b) = (plan::cell_bytes(false, c, n), plan::cell_bytes(true, c, n));
    let (x, y) = (plan::cell_bytes(false, c, (n - 1) as nat), plan::cell_bytes(true, c, (n - 1) as nat));
    if n > 1 {
        cells_stand_at_their_cluster(
            c,
            (n - 1) as nat,
            if i < n - 1 {
                i
            } else {
                0
            },
        );
    } else {
        assert(x.len() == 0 && y.len() == 0);
    }
    let v = c[n - 1];
    bytes::le16_of_bytes(v);
    bytes::le32_of_bytes(v);
    let (s, w) = (bytes::le16_bytes(v), bytes::le32_bytes(v));
    assert(a == x + s);
    assert(b == y + w);
    if i == n - 1 {
        let (p, q) = (2 * i, 4 * i);
        assert(a[p] == s[0] && a[p + 1] == s[1]);
        assert(b[q] == w[0] && b[q + 1] == w[1] && b[q + 2] == w[2] && b[q + 3] == w[3]);
    } else {
        let (p, q) = (2 * i, 4 * i);
        assert(a[p] == x[p] && a[p + 1] == x[p + 1]);
        assert(b[q] == y[q] && b[q + 1] == y[q + 1] && b[q + 2] == y[q + 2] && b[q + 3] == y[q + 3]);
    }
}

/// The last cluster of a chain is marked with all the bits that a cell has for a cluster.
pub proof fn chains_end_with_a_mark(wide: bool)
    ensures
        plan::end_mark(wide) == if wide {
            0x0FFF_FFFFint
        } else {
            0xFFFFint
        },
{
}

/// A volume is read by the same fields: where the tables, the root and the data begin follows from the first
/// sector alone.
pub proof fn volumes_are_read_by_their_first_sector(b: Seq<u8>)
    ensures
        ({
            let m = fat16::media_of(b);
            let w = fat32::media_of(b);
            &&& m.cluster_size == 512 * b[13] && w.cluster_size == 512 * b[13]
            &&& m.fat_start == 512 * bytes::le16(b, 14) && w.fat_start == 512 * bytes::le16(b, 14)
            &&& m.fats == b[16] && w.fats == b[16]
            &&& m.fat_bytes == 512 * bytes::le16(b, 22)
            &&& w.fat_bytes == 512 * bytes::le32(b, 36)
            &&& m.root_entries == bytes::le16(b, 17)
            &&& m.root_start == m.fat_start + b[16] * m.fat_bytes
            &&& m.root_start + 32 * m.root_entries <= m.data_start < m.root_start + 32 * m.root_entries + 512
            &&& w.data_start == w.fat_start + b[16] * w.fat_bytes
            &&& w.root == bytes::le32(b, 44) % 0x1000_0000
            &&& !m.wide && w.wide
        }),
{
}

} // verus!
