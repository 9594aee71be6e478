//! FAT16 volumes.

use kbuild::bytes::get_le16;
use kbuild::fat16::{layout, volume, File, Params, Volume};

const SECTOR: usize = 512;

/// Bytes in a directory entry.
const ENTRY: usize = 32;

fn params() -> Params {
    Params {
        sectors: 8192,
        sectors_per_cluster: 1,
        reserved_sectors: 1,
        fats: 2,
        root_entries: 64,
        hidden_sectors: 0,
        label: *b"TEST       ",
        volume_id: 1,
        what: "a test volume",
    }
}

#[test]
fn fat16_a_written_volume_reads_back_and_checks_clean() {
    let big: Vec<u8> = (0..5000u32).map(|i| i as u8).collect();
    let files = [
        File {
            path: "A.TXT",
            data: b"hello",
        },
        File {
            path: "DIR/BIG.BIN",
            data: &big,
        },
        File {
            path: "DIR/EMPTY",
            data: b"",
        },
    ];
    let v = volume(&files, &params()).unwrap();
    let vol = Volume::open(&v).unwrap();
    let r = vol.check().unwrap();
    assert_eq!((r.files, r.dirs, r.lost, r.fats_differ), (3, 1, 0, 0));
    assert_eq!(vol.read("/a.txt").unwrap().unwrap(), b"hello");
    assert_eq!(vol.read("/DIR/BIG.BIN").unwrap().unwrap(), big);
    assert_eq!(vol.read("/DIR/EMPTY").unwrap().unwrap(), b"");
    assert!(vol.read("/DIR/NOPE").unwrap().is_none());
    assert!(vol.has("/DIR").unwrap());
    assert_eq!(vol.files_in("/DIR").unwrap().unwrap().len(), 2);
}

#[test]
fn cross_links_free_chains_and_short_chains_are_refused() {
    let files = [
        File {
            path: "A.BIN",
            data: &[1u8; 1500],
        },
        File {
            path: "B.BIN",
            data: &[2u8; 1500],
        },
    ];
    let good = volume(&files, &params()).unwrap();
    let geo = layout(&params()).unwrap();
    let fat = SECTOR;
    let root = (1 + 2 * usize::from(geo.fat_sectors)) * SECTOR;
    // The root's first entry is the label; A is the second, B the third.
    let (a, b) = (root + ENTRY, root + 2 * ENTRY);
    let a_first = get_le16(&good, a + 26);

    let mut crossed = good.clone();
    crossed[b + 26..b + 28].copy_from_slice(&a_first.to_le_bytes());
    assert!(
        Volume::open(&crossed)
            .unwrap()
            .check()
            .unwrap_err()
            .contains("claimed twice")
    );

    let mut freed = good.clone();
    let at = fat + usize::from(a_first) * 2;
    freed[at..at + 2].copy_from_slice(&0u16.to_le_bytes());
    assert!(
        Volume::open(&freed)
            .unwrap()
            .check()
            .unwrap_err()
            .contains("free cluster")
    );

    let mut short = good.clone();
    short[a + 28..a + 32].copy_from_slice(&5000u32.to_le_bytes());
    assert!(
        Volume::open(&short)
            .unwrap()
            .check()
            .unwrap_err()
            .contains("clusters hold")
    );

    let mut lost = good.clone();
    let spare = fat + 4000 * 2;
    lost[spare..spare + 2].copy_from_slice(&0xFFFFu16.to_le_bytes());
    let r = Volume::open(&lost).unwrap().check().unwrap();
    assert_eq!((r.lost, r.fats_differ), (1, 1), "a lost cluster, in the first table only");
}
