//! EFI system partition disk images, written from scratch.
//!
//! A UEFI machine boots from a FAT file system on a partition marked as an EFI system
//! partition. The volume itself comes from [`crate::fat16`]; what is particular to the ESP is
//! its shape and the disk around it:
//!
//! - an MBR with one partition of type `0xEF`;
//! - FAT16, with a fixed 32 MiB size and 2 KiB clusters, which gives 16 000-odd clusters,
//!   comfortably inside FAT16's range at both ends;
//! - 8.3 names only. The firmware looks up `\EFI\BOOT\BOOTX64.EFI` and the loader looks up
//!   `\KINTANE\KERNEL.ELF`, and neither needs a long-name entry.
//!
//! The image is **reproducible**: the volume is, and the MBR has no field that depends on when
//! or where it was written.

use vstd::prelude::*;

use crate::bytes;
use crate::fat::{plan, read, sound, tree};
use crate::fat16;
use crate::fat16::{Layout, Params};

pub use crate::fat16::File;

verus! {

/// The partition starts at 1 MiB, the alignment every partitioning tool uses.
pub const PARTITION_START: u32 = 2048;

/// 32 MiB of FAT16.
pub const PARTITION_SECTORS: u32 = 65536;

pub const SECTORS_PER_CLUSTER: u8 = 4;

/// Where the partition starts, in bytes.
pub const PARTITION_OFFSET: usize = 0x10_0000;

/// The label of the EFI system partition.
pub const LABEL: [u8; 11] = [0x4Bu8, 0x49, 0x4E, 0x54, 0x41, 0x4E, 0x45, 0x20, 0x20, 0x20, 0x20];

/// The shape of the EFI system partition.
pub open spec fn esp() -> Params {
    Params {
        sectors: PARTITION_SECTORS,
        sectors_per_cluster: SECTORS_PER_CLUSTER,
        reserved_sectors: 1,
        fats: 2,
        root_entries: 512,
        hidden_sectors: PARTITION_START,
        label: LABEL,
        volume_id: 0x4B49_4E54,
        what: "the EFI system partition",
    }
}

/// The ESP's shape.
pub fn shape() -> (p: Params)
    ensures
        p == esp(),
{
    Params {
        sectors: PARTITION_SECTORS,
        sectors_per_cluster: SECTORS_PER_CLUSTER,
        reserved_sectors: 1,
        fats: 2,
        root_entries: 512,
        hidden_sectors: PARTITION_START,
        label: LABEL,
        volume_id: 0x4B49_4E54,
        what: "the EFI system partition",
    }
}

/// The disk's first sector: a signature, one partition and nothing to boot.
pub open spec fn mbr() -> Seq<u8> {
    bytes::zeros(440) + bytes::le32_bytes(0x544E_494B) + bytes::zeros(2) + seq![
        0x00u8,
        0xFE,
        0xFF,
        0xFF,
        0xEF,
        0xFE,
        0xFF,
        0xFF,
    ] + bytes::le32_bytes(PARTITION_START as int) + bytes::le32_bytes(PARTITION_SECTORS as int) + bytes::zeros(48)
        + seq![0x55u8, 0xAA]
}

/// The disk that holds a volume.
pub open spec fn around(volume: Seq<u8>) -> Seq<u8> {
    mbr() + bytes::zeros((PARTITION_OFFSET - 512) as nat) + volume
}

fn push_mbr(s: &mut Vec<u8>)
    ensures
        final(s)@ == old(s)@ + mbr(),
{
    let ghost before = s@;
    plan::push_zeros(s, 440);
    // Disk signature, a constant for reproducibility.
    bytes::push_le32(s, 0x544E_494B);
    plan::push_zeros(s, 2);
    // Not active: UEFI ignores the flag, and BIOS has nothing to boot here. The CHS fields are
    // saturated, which says "use the LBA fields" to anything that looks.
    bytes::push_all(s, [0x00u8, 0xFE, 0xFF, 0xFF, 0xEF, 0xFE, 0xFF, 0xFF].as_slice());
    bytes::push_le32(s, PARTITION_START);
    bytes::push_le32(s, PARTITION_SECTORS);
    plan::push_zeros(s, 48);
    bytes::push_all(s, [0x55u8, 0xAA].as_slice());
    assert(s@ =~= before + mbr());
}

/// The disk that holds `files`, or why there is none.
pub open spec fn disk_of(files: Seq<tree::Item>) -> Result<Seq<u8>, Seq<char>> {
    match fat16::volume_of(files, esp()) {
        Ok(v) => Ok(around(v)),
        Err(m) => Err(m),
    }
}

proof fn shape_fits()
    ensures
        fat16::clusters(esp(), 1) + 2 <= u32::MAX,
        esp().sectors * fat16::SECTOR <= usize::MAX,
        fat16::readable(esp()),
{
}

/// A whole disk: an MBR, then one EFI system partition holding `files`.
pub fn disk_image(files: &[File<'_>]) -> (r: Result<Vec<u8>, String>)
    requires
        files@.len() <= usize::MAX / 32,
    ensures
        match r {
            Ok(v) => disk_of(tree::items(files@)) == Ok::<Seq<u8>, Seq<char>>(v@),
            Err(m) => disk_of(tree::items(files@)) == Err::<Seq<u8>, Seq<char>>(m@),
        },
{
    let p = shape();
    proof {
        shape_fits();
    }
    let volume = match fat16::volume(files, &p) {
        Ok(v) => v,
        Err(m) => return Err(m),
    };
    let mut disk: Vec<u8> = Vec::new();
    push_mbr(&mut disk);
    plan::push_zeros(&mut disk, PARTITION_OFFSET - 512);
    bytes::push_all(&mut disk, volume.as_slice());
    assert(disk@ =~= around(volume@));
    Ok(disk)
}

/// The layout of the volume.
pub fn geometry() -> (r: Result<Layout, String>)
    ensures
        match r {
            Ok(l) => fat16::shape_wrong(esp()) is None && l == fat16::layout_of(esp()),
            Err(m) => fat16::shape_wrong(esp()) == Some(m@),
        },
{
    let p = shape();
    proof {
        shape_fits();
    }
    fat16::layout(&p)
}

/// A disk is reproducible: the same files make the same bytes, or none, in whatever order they are
/// given.
pub proof fn disks_do_not_depend_on_the_order_of_files(a: Seq<tree::Item>, b: Seq<tree::Item>)
    requires
        a.to_multiset() == b.to_multiset(),
    ensures
        disk_of(a) is Ok <==> disk_of(b) is Ok,
        disk_of(a) is Ok ==> disk_of(a) == disk_of(b),
{
    fat16::volumes_do_not_depend_on_the_order_of_files(a, b, esp());
}

/// Every disk is as long as the partition and what comes before it, and its MBR describes that
/// partition.
pub proof fn disks_hold_one_partition(files: Seq<tree::Item>)
    requires
        disk_of(files) is Ok,
    ensures
        ({
            let d = disk_of(files)->Ok_0;
            &&& d.len() == (PARTITION_START + PARTITION_SECTORS) * fat16::SECTOR
            &&& d[450] == 0xEF
            &&& bytes::le32(d, 454) == PARTITION_START
            &&& bytes::le32(d, 458) == PARTITION_SECTORS
            &&& d[510] == 0x55
            &&& d[511] == 0xAA
        }),
{
    let v = fat16::volume_of(files, esp())->Ok_0;
    volumes_fill_the_partition(files);
    mbr_says();
    let d = around(v);
    assert(forall|i: int| 0 <= i < 512 ==> #[trigger] d[i] == mbr()[i]);
}

proof fn volumes_fill_the_partition(files: Seq<tree::Item>)
    requires
        disk_of(files) is Ok,
    ensures
        fat16::volume_of(files, esp())->Ok_0.len() == PARTITION_SECTORS * fat16::SECTOR,
{
    let t = tree::planted(files, esp().what@, files.len())->Ok_0;
    sound::every_file_is_planted(files, esp().what@, files.len());
    fat16::volume_fits(esp(), t);
}

proof fn mbr_says()
    ensures
        mbr().len() == 512,
        mbr()[450] == 0xEF,
        bytes::le32(mbr(), 454) == PARTITION_START,
        bytes::le32(mbr(), 458) == PARTITION_SECTORS,
        mbr()[510] == 0x55,
        mbr()[511] == 0xAA,
{
    let (x, y) = (bytes::le32_bytes(PARTITION_START as int), bytes::le32_bytes(PARTITION_SECTORS as int));
    let entry = seq![0x00u8, 0xFE, 0xFF, 0xFF, 0xEF, 0xFE, 0xFF, 0xFF];
    let m = mbr();
    assert(m[450] == entry[4]);
    assert(m[454] == x[0] && m[455] == x[1] && m[456] == x[2] && m[457] == x[3]);
    assert(m[458] == y[0] && m[459] == y[1] && m[460] == y[2] && m[461] == y[3]);
    bytes::le32_of_bytes(PARTITION_START as int);
    bytes::le32_of_bytes(PARTITION_SECTORS as int);
}

/// Every file reads back from the disk it was written on, from where the partition starts.
pub proof fn files_read_back_from_the_disk(files: Seq<tree::Item>, i: int, path: Seq<char>)
    requires
        disk_of(files) is Ok,
        0 <= i < files.len(),
        fat16::leads_to(path, files[i]),
    ensures
        ({
            let disk = disk_of(files)->Ok_0;
            let volume = disk.subrange(PARTITION_OFFSET as int, disk.len() as int);
            &&& fat16::open_wrong(volume) is None
            &&& read::read(fat16::media_of(volume), path) == Ok::<Option<Seq<u8>>, Seq<char>>(Some(files[i].data))
        }),
{
    shape_fits();
    fat16::written_files_read_back(files, esp(), i, path);
    let v = fat16::volume_of(files, esp())->Ok_0;
    let disk = around(v);
    assert(mbr().len() == 512);
    assert(disk.subrange(PARTITION_OFFSET as int, disk.len() as int) =~= v);
}

} // verus!
