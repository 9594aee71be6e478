//! Image formats.

use kbuild::crc::crc32;
use kbuild::image::{
    entry_and_load, uimage, uimage_arch, UImage, IH_OS_U_BOOT, IH_TYPE_STANDALONE, UIMAGE_HEADER, UIMAGE_MAGIC,
};

fn be32(b: &[u8], at: usize) -> u32 {
    u32::from_be_bytes([b[at], b[at + 1], b[at + 2], b[at + 3]])
}

#[test]
fn a_uimage_header_describes_its_payload_and_checks_itself() {
    let payload: Vec<u8> = (0..300u32).map(|i| i as u8).collect();
    let h = UImage {
        arch: 2,
        load: 0x0000_0000,
        entry: 0x0000_0101,
        name: "KinTane armv7m-kintane",
    };
    let img = uimage(&h, &payload).unwrap();
    assert_eq!(img.len(), UIMAGE_HEADER + payload.len());
    assert_eq!(be32(&img, 0), UIMAGE_MAGIC);
    assert_eq!(be32(&img, 12), payload.len() as u32, "ih_size");
    assert_eq!(be32(&img, 16), 0, "ih_load");
    assert_eq!(be32(&img, 20), 0x101, "ih_ep");
    assert_eq!(be32(&img, 24), crc32(&payload), "ih_dcrc is the payload's CRC");
    assert_eq!((img[28], img[29], img[30], img[31]), (IH_OS_U_BOOT, 2, IH_TYPE_STANDALONE, 0));
    assert_eq!(&img[32..54], b"KinTane armv7m-kintane");
    assert_eq!(img[63], 0, "the name field always ends in NUL");

    // The header CRC is over the header with ih_hcrc zero, as U-Boot recomputes it.
    let mut zeroed = img[..UIMAGE_HEADER].to_vec();
    zeroed[4..8].copy_from_slice(&[0; 4]);
    assert_eq!(be32(&img, 4), crc32(&zeroed));
    assert_eq!(&img[UIMAGE_HEADER..], &payload[..]);
}

#[test]
fn a_corrupt_payload_no_longer_matches_its_header() {
    let img = uimage(
        &UImage {
            arch: 26,
            load: 0x8000_0000,
            entry: 0x8000_0000,
            name: "x",
        },
        b"kernel",
    )
    .unwrap();
    let mut bad = img.clone();
    bad[UIMAGE_HEADER] ^= 1;
    assert_ne!(be32(&bad, 24), crc32(&bad[UIMAGE_HEADER..]));
}

#[test]
fn a_long_name_is_cut_to_fit_with_its_terminator() {
    let long = "K".repeat(80);
    let img = uimage(
        &UImage {
            arch: 2,
            load: 0,
            entry: 0,
            name: &long,
        },
        b"",
    )
    .unwrap();
    assert!(img[32..63].iter().all(|&b| b == b'K'));
    assert_eq!(img[63], 0);
}

#[test]
fn every_kintane_target_has_a_uboot_architecture() {
    for (t, arch) in [
        ("armv7m-kintane", 2),
        ("i686-kintane", 3),
        ("aarch64-kintane", 22),
        ("x86_64-kintane", 24),
        ("riscv32-kintane", 26),
        ("riscv32i-kintane", 26),
    ] {
        assert_eq!(uimage_arch(t).unwrap(), arch, "{t}");
    }
    assert!(uimage_arch("m68k-kintane").is_err());
}

/// An ELF with one load segment at `paddr`, of the given class.
fn elf(class: u8, entry: u64, paddr: u64) -> Vec<u8> {
    let mut v = vec![0u8; 256];
    v[..4].copy_from_slice(b"\x7fELF");
    v[4] = class;
    v[5] = 1;
    if class == 2 {
        v[24..32].copy_from_slice(&entry.to_le_bytes());
        v[32..40].copy_from_slice(&64u64.to_le_bytes());
        v[54..56].copy_from_slice(&56u16.to_le_bytes());
        v[56..58].copy_from_slice(&1u16.to_le_bytes());
        let ph = 64;
        v[ph..ph + 4].copy_from_slice(&1u32.to_le_bytes());
        v[ph + 24..ph + 32].copy_from_slice(&paddr.to_le_bytes());
        v[ph + 40..ph + 48].copy_from_slice(&0x1000u64.to_le_bytes());
    } else {
        v[24..28].copy_from_slice(&(entry as u32).to_le_bytes());
        v[28..32].copy_from_slice(&52u32.to_le_bytes());
        v[42..44].copy_from_slice(&32u16.to_le_bytes());
        v[44..46].copy_from_slice(&1u16.to_le_bytes());
        let ph = 52;
        v[ph..ph + 4].copy_from_slice(&1u32.to_le_bytes());
        v[ph + 12..ph + 16].copy_from_slice(&(paddr as u32).to_le_bytes());
        v[ph + 20..ph + 24].copy_from_slice(&0x1000u32.to_le_bytes());
    }
    v
}

#[test]
fn entry_and_load_read_both_classes_of_elf() {
    assert_eq!(
        entry_and_load(&elf(2, 0x4020_0000, 0x4020_0000)).unwrap(),
        (0x4020_0000, 0x4020_0000)
    );
    assert_eq!(entry_and_load(&elf(1, 0x101, 0x0)).unwrap(), (0x101, 0));
    assert!(entry_and_load(b"not an elf").is_err());
}
