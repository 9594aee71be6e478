//! The EFI system partition.

use kbuild::esp::{disk_image, geometry, PARTITION_SECTORS};
use kbuild::fat16::{short_name, File};

const ATTR_VOLUME_ID: u8 = 0x08;
const ATTR_DIRECTORY: u8 = 0x10;

/// Bytes in a cluster.
const CLUSTER: usize = 4 * 512;

/// An independent reader: follows the MBR, the boot sector's geometry, directory
/// entries and FAT chains back to a file's bytes. Written against the field offsets
/// of FAT itself, not against the writer's constants.
fn read(disk: &[u8], path: &str) -> Option<Vec<u8>> {
    let u16_at = |b: &[u8], at: usize| u16::from_le_bytes([b[at], b[at + 1]]) as usize;
    let u32_at =
        |b: &[u8], at: usize| u32::from_le_bytes(b[at..at + 4].try_into().unwrap()) as usize;
    assert_eq!(&disk[510..512], &[0x55, 0xAA]);
    assert_eq!(disk[446 + 4], 0xEF, "partition type is EFI system partition");
    let part = &disk[u32_at(disk, 446 + 8) * 512..];
    let bps = u16_at(part, 11);
    let spc = part[13] as usize;
    let reserved = u16_at(part, 14);
    let fats = part[16] as usize;
    let root_entries = u16_at(part, 17);
    let fat_sz = u16_at(part, 22);
    let total = u32_at(part, 32);
    assert_eq!(&part[54..62], b"FAT16   ");
    let fat = &part[reserved * bps..];
    let root_at = (reserved + fats * fat_sz) * bps;
    let root_sectors = (root_entries * 32).div_ceil(bps);
    let data_at = root_at + root_sectors * bps;
    let clusters = (total - reserved - fats * fat_sz - root_sectors) / spc;
    assert!((4085..65525).contains(&clusters), "{clusters} clusters is FAT16");

    let chain = |mut c: usize| {
        let mut out = Vec::new();
        while (2..0xFFF8).contains(&c) {
            let at = data_at + (c - 2) * spc * bps;
            out.extend_from_slice(&part[at..at + spc * bps]);
            c = u16_at(fat, c * 2);
        }
        out
    };

    let mut dir = part[root_at..root_at + root_entries * 32].to_vec();
    let components: Vec<&str> = path.split('/').collect();
    for (i, want) in components.iter().enumerate() {
        let name = short_name(want).unwrap();
        // The volume label is an entry too, and shares the name `KINTANE` with a
        // directory; a reader skips it, as every FAT driver does.
        let e = dir
            .chunks(32)
            .take_while(|e| e[0] != 0)
            .find(|e| e[11] & ATTR_VOLUME_ID == 0 && e[..11] == name)?;
        let (attr, cluster, size) = (e[11], u16_at(e, 26), u32_at(e, 28));
        if i + 1 == components.len() {
            assert_eq!(attr & ATTR_DIRECTORY, 0);
            let mut data = chain(cluster);
            data.truncate(size);
            return Some(data);
        }
        assert_ne!(attr & ATTR_DIRECTORY, 0);
        dir = chain(cluster);
        assert_eq!(&dir[..11], b".          ");
        assert_eq!(u16_at(&dir, 26), cluster, "`.` names the directory itself");
    }
    None
}

fn bytes(n: usize, seed: u8) -> Vec<u8> {
    (0..n)
        .map(|i| (i as u8).wrapping_mul(31).wrapping_add(seed))
        .collect()
}

#[test]
fn files_read_back_through_directories_and_fat_chains() {
    let loader = bytes(40_000, 1);
    let kernel = bytes(CLUSTER * 3, 2);
    let tiny = bytes(1, 3);
    let disk = disk_image(&[
        File {
            path: "EFI/BOOT/BOOTX64.EFI",
            data: &loader,
        },
        File {
            path: "KINTANE/KERNEL.ELF",
            data: &kernel,
        },
        File {
            path: "KINTANE/EMPTY",
            data: &[],
        },
        File {
            path: "tiny.txt",
            data: &tiny,
        },
    ])
    .unwrap();
    assert_eq!(read(&disk, "EFI/BOOT/BOOTX64.EFI").unwrap(), loader);
    assert_eq!(read(&disk, "KINTANE/KERNEL.ELF").unwrap(), kernel);
    assert_eq!(read(&disk, "KINTANE/EMPTY").unwrap(), Vec::<u8>::new());
    assert_eq!(read(&disk, "TINY.TXT").unwrap(), tiny, "names are case-insensitive");
    assert_eq!(read(&disk, "EFI/BOOT/MISSING.EFI"), None);
    assert_eq!(disk.len(), (2048 + 65536) * 512);
}

#[test]
fn a_subdirectorys_parent_entry_names_its_parent() {
    let disk = disk_image(&[File {
        path: "A/B/C/F",
        data: b"x",
    }])
    .unwrap();
    assert_eq!(read(&disk, "A/B/C/F").unwrap(), b"x");
    // A's `..` is the root, which FAT spells as cluster 0.
    let part = &disk[2048 * 512..];
    let g = geometry().unwrap();
    let root_at = (1 + 2 * g.fat_sectors as usize) * 512;
    let a = &part[root_at + 32..root_at + 64];
    assert_eq!(&a[..11], b"A          ");
    let a_cluster = u16::from_le_bytes([a[26], a[27]]) as usize;
    let a_at = (g.data_start as usize + (a_cluster - 2) * 4) * 512;
    assert_eq!(&part[a_at + 32..a_at + 43], b"..         ");
    assert_eq!(&part[a_at + 58..a_at + 60], &[0, 0]);
}

#[test]
fn the_same_inputs_give_the_same_bytes() {
    let k = bytes(5000, 9);
    let files = [
        File {
            path: "KINTANE/KERNEL.ELF",
            data: &k,
        },
        File {
            path: "EFI/BOOT/BOOTX64.EFI",
            data: b"MZ",
        },
    ];
    let reordered = [
        File {
            path: "EFI/BOOT/BOOTX64.EFI",
            data: b"MZ",
        },
        File {
            path: "KINTANE/KERNEL.ELF",
            data: &k,
        },
    ];
    assert!(disk_image(&files).unwrap() == disk_image(&reordered).unwrap());
}

#[test]
fn names_that_fat_cannot_store_as_8_3_are_refused() {
    for bad in [
        "TOOLONGNAME.EFI",
        "A.TOOL",
        "",
        "SP ACE",
        "A.B.C",
        ".HIDDEN",
    ] {
        assert!(short_name(bad).is_err(), "{bad:?}");
    }
    assert_eq!(&short_name("bootx64.efi").unwrap(), b"BOOTX64 EFI");
    assert_eq!(&short_name("KINTANE").unwrap(), b"KINTANE    ");
}

#[test]
fn a_path_used_twice_or_as_both_file_and_directory_is_an_error() {
    assert!(
        disk_image(&[
            File {
                path: "A",
                data: b"1"
            },
            File {
                path: "A",
                data: b"2"
            }
        ])
        .is_err()
    );
    assert!(
        disk_image(&[
            File {
                path: "A",
                data: b"1"
            },
            File {
                path: "A/B",
                data: b"2"
            }
        ])
        .is_err()
    );
    assert!(
        disk_image(&[
            File {
                path: "A/B",
                data: b"1"
            },
            File {
                path: "A",
                data: b"2"
            }
        ])
        .is_err()
    );
}

#[test]
fn content_larger_than_the_partition_is_refused() {
    let huge = vec![0u8; 40 * 1024 * 1024];
    let e = disk_image(&[File {
        path: "BIG",
        data: &huge,
    }])
    .unwrap_err();
    assert!(e.contains("full"), "{e}");
}

#[test]
fn the_geometry_is_fat16_and_the_fat_covers_every_cluster() {
    let g = geometry().unwrap();
    assert!((4085..65525).contains(&g.clusters), "{}", g.clusters);
    assert!(g.fat_sectors as u32 * 512 / 2 >= g.clusters + 2);
    // And is the smallest such FAT: one sector less would not cover them.
    let smaller = g.fat_sectors as u32 - 1;
    let data_start = 1 + 2 * smaller + g.root_sectors;
    let clusters = (PARTITION_SECTORS - data_start) / 4;
    assert!(smaller * 512 / 2 < clusters + 2);
}

#[test]
fn a_disk_is_the_same_in_whatever_order_its_files_come() {
    let a = || File { path: "EFI/BOOT/BOOTX64.EFI", data: b"loader" };
    let b = || File { path: "KINTANE/KERNEL.ELF", data: &[7; 5000] };
    let c = || File { path: "EFI/BOOT", data: b"a file where a directory is" };
    let disk = disk_image(&[a(), b()]).unwrap();
    assert_eq!(disk_image(&[b(), a()]).unwrap(), disk);
    assert_eq!(disk.len(), (2048 + 65536) * 512);
    assert_eq!(disk[450], 0xEF);
    assert_eq!(disk[454..462], [0, 8, 0, 0, 0, 0, 1, 0]);
    assert_eq!(disk[510..512], [0x55, 0xAA]);

    // What is refused in one order is refused in the other.
    assert!(disk_image(&[a(), c()]).is_err());
    assert!(disk_image(&[c(), a()]).is_err());
    assert!(disk_image(&[a(), b(), a()]).is_err());
    assert!(disk_image(&[a(), a(), b()]).is_err());
}
