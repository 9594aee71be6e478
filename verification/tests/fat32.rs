//! FAT32 volumes.

use kbuild::bytes::{get_le16, get_le32};
use kbuild::fat16::File;
use kbuild::fat32::{volume, Params, Volume, ROOT_CLUSTER};

/// Bytes in a directory entry.
const ENTRY: usize = 32;

/// The smallest volume that is FAT32 by its cluster count: about 34 MiB.
fn params() -> Params {
    Params {
        sectors: 66_600,
        sectors_per_cluster: 1,
        reserved_sectors: 32,
        fats: 2,
        hidden_sectors: 0,
        label: *b"KTFAT32    ",
        volume_id: 0x4654_3332,
        what: "a test volume",
    }
}

#[test]
fn fat32_a_written_volume_reads_back_and_checks_clean() {
    let big: Vec<u8> = (0..5000u32).map(|i| (i * 7) as u8).collect();
    let files = [
        File {
            path: "A.TXT",
            data: b"hello",
        },
        File {
            path: "DIR/BIG.BIN",
            data: &big,
        },
        File {
            path: "DIR/EMPTY",
            data: b"",
        },
    ];
    let v = volume(&files, &params()).unwrap();
    let vol = Volume::open(&v).unwrap();
    let r = vol.check().unwrap();
    assert_eq!((r.files, r.dirs, r.lost, r.fats_differ), (3, 1, 0, 0));
    assert_eq!(vol.read("/a.txt").unwrap().unwrap(), b"hello");
    assert_eq!(vol.read("/DIR/BIG.BIN").unwrap().unwrap(), big);
    assert_eq!(vol.read("/DIR/EMPTY").unwrap().unwrap(), b"");
    assert!(vol.has("/DIR").unwrap());
    // The root, the directory, the big file's ten clusters and the small one's.
    assert_eq!(r.claimed, 1 + 1 + 10 + 1);
    assert_eq!(r.claimed + r.free, vol.disk.clusters, "every cluster is claimed or free");
}

#[test]
fn the_boot_sector_says_fat32_where_fat32_says_it() {
    let v = volume(&[], &params()).unwrap();
    assert_eq!(get_le16(&v, 17), 0, "no fixed root region");
    assert_eq!(get_le16(&v, 22), 0, "no 16-bit table size");
    assert_ne!(get_le32(&v, 36), 0, "a 32-bit table size");
    assert_eq!(get_le32(&v, 44), ROOT_CLUSTER, "the root's first cluster");
    assert_eq!(&v[82..90], b"FAT32   ", "FAT32's type string, where FAT32 keeps it");
    assert_eq!(&v[510..512], &[0x55, 0xAA]);
}

#[test]
fn fsinfo_holds_the_count_the_walk_finds() {
    let v = volume(
        &[File {
            path: "A.BIN",
            data: &[7u8; 3000],
        }],
        &params(),
    )
    .unwrap();
    let vol = Volume::open(&v).unwrap();
    let r = vol.check().unwrap();
    assert_eq!(r.fsinfo_free, Some(r.free), "FSInfo agrees with the table");
    assert_eq!(r.claimed + r.free, vol.disk.clusters, "every cluster is claimed or free");
}

#[test]
fn a_volume_below_the_boundary_is_refused_rather_than_written_as_fat16() {
    let small = Params {
        sectors: 20_000,
        ..params()
    };
    let err = volume(&[], &small).unwrap_err();
    assert!(err.contains("is not FAT32"), "{err}");
}

#[test]
fn a_cross_link_and_a_short_chain_are_refused() {
    let files = [
        File {
            path: "A.BIN",
            data: &[1u8; 1500],
        },
        File {
            path: "B.BIN",
            data: &[2u8; 1500],
        },
    ];
    let good = volume(&files, &params()).unwrap();
    let vol = Volume::open(&good).unwrap();
    // The root holds the label, then A.BIN, then B.BIN.
    let root_at = vol.disk.data_start;
    let (a, b) = (root_at + ENTRY, root_at + 2 * ENTRY);
    let a_first = u32::from(get_le16(&good, a + 26));

    let mut crossed = good.clone();
    crossed[b + 26..b + 28].copy_from_slice(&(a_first as u16).to_le_bytes());
    assert!(
        Volume::open(&crossed)
            .unwrap()
            .check()
            .unwrap_err()
            .contains("claimed twice")
    );

    let mut short = good.clone();
    short[a + 28..a + 32].copy_from_slice(&9000u32.to_le_bytes());
    assert!(
        Volume::open(&short)
            .unwrap()
            .check()
            .unwrap_err()
            .contains("clusters hold")
    );
}

#[test]
fn fat32_a_path_leads_to_a_file_or_a_directory_or_nothing() {
    let files = [
        File { path: "A.TXT", data: b"hello" },
        File { path: "DIR/B.TXT", data: b"there" },
    ];
    let v = volume(&files, &params()).unwrap();
    let vol = Volume::open(&v).unwrap();
    assert!(vol.is_reportable());
    assert_eq!(vol.files_in("A.TXT"), Ok(None));
    assert_eq!(vol.files_in("DIR/B.TXT"), Ok(None));
    assert_eq!(vol.files_in("NOPE"), Ok(None));
    assert_eq!(vol.files_in("dir"), Ok(Some(vec![("B.TXT".to_string(), b"there".to_vec())])));
    assert_eq!(vol.read("dir"), Err("dir is a directory".to_string()));
    assert_eq!(vol.read("NOPE"), Ok(None));
    assert_eq!(vol.read("A.TXT/B.TXT"), Ok(None));
    let turned = [
        File { path: "DIR/B.TXT", data: b"there" },
        File { path: "A.TXT", data: b"hello" },
    ];
    assert_eq!(volume(&turned, &params()).unwrap(), v);
}
