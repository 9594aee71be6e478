//! The disk that a PC's BIOS boots from.

use kbuild::bios::{
    assemble as assemble_disk, Layout, CHAIN_PARTITION_TYPE, CHAIN_TABLE_OFFSET, CHAIN_TEST_DRIVE, STAGE1_TABLE_OFFSET,
    STAGE2_MAX_SECTORS,
};
use kbuild::bytes::get_le32;
use kbuild::crc::crc32;

/// What the loader of these tests fixes of its disk.
const LAYOUT: Layout = Layout {
    stage1_magic: *b"KBS1",
    stage2_magic: *b"KBS2",
    stage2_header_offset: 8,
    config_max_bytes: 4096,
    partition_type: 0x7A,
};

fn assemble(loader: &[u8], kernel: &[u8], entries: &[u8], chain: Option<&[u8]>) -> Result<Vec<u8>, String> {
    assemble_disk(loader, kernel, entries, chain, &LAYOUT)
}

/// A loader image shaped like the real one: stage 1 with its table magic and
/// signature, stage 2 with its header magic.
fn loader(stage2_len: usize) -> Vec<u8> {
    let mut l = vec![0u8; 512 + stage2_len];
    l[..4].copy_from_slice(&[0xFA, 0x31, 0xC0, 0x8E]);
    l[STAGE1_TABLE_OFFSET..STAGE1_TABLE_OFFSET + 4]
        .copy_from_slice(&LAYOUT.stage1_magic);
    l[510] = 0x55;
    l[511] = 0xAA;
    let h = 512 + LAYOUT.stage2_header_offset;
    l[h..h + 4].copy_from_slice(&LAYOUT.stage2_magic);
    l
}

const ENTRIES: &[u8] = b"entry normal\nmode safe\n";

#[test]
fn layout_is_what_the_loader_reads() {
    let kernel: Vec<u8> = (0..3000u32).map(|i| i as u8).collect();
    let img = assemble(&loader(1500), &kernel, ENTRIES, None).unwrap();

    // Stage 2 is three sectors (LBA 1-3), the entries one (LBA 4), so the kernel starts
    // at LBA 5 and takes six; the disk is then padded to one whole cylinder.
    assert_eq!(img.len(), 1008 * 512);
    assert_eq!(&img[424 + 4..424 + 10], &[1, 0, 0, 0, 3, 0]);
    let header = 512 + LAYOUT.stage2_header_offset;
    assert_eq!((get_le32(&img, header + 16), get_le32(&img, header + 20)), (4, ENTRIES.len() as u32));
    assert_eq!(get_le32(&img, header + 24), crc32(ENTRIES));
    assert_eq!(&img[4 * 512..4 * 512 + ENTRIES.len()], ENTRIES);
    assert_eq!(get_le32(&img, header + 4), 5);
    assert_eq!(get_le32(&img, header + 8), 3000);
    assert_eq!(get_le32(&img, header + 12), crc32(&kernel));
    assert_eq!(&img[5 * 512..5 * 512 + 3000], &kernel[..]);

    // The partition entry covers everything after the MBR, and there is no second one.
    assert_eq!(img[446], 0x80);
    assert_eq!(img[450], LAYOUT.partition_type);
    assert_eq!(&img[454..462], &[1, 0, 0, 0, 0xEF, 3, 0, 0]);
    assert!(img[462..478].iter().all(|&b| b == 0));
    assert!(img[5 * 512 + 3000..].iter().all(|&b| b == 0));
    assert_eq!(&img[510..512], &[0x55, 0xAA]);
}

fn record() -> Vec<u8> {
    let mut r = vec![0u8; 512];
    r[CHAIN_TABLE_OFFSET..CHAIN_TABLE_OFFSET + 4].copy_from_slice(b"KBCT");
    r[510] = 0x55;
    r[511] = 0xAA;
    r
}

#[test]
fn a_chain_test_record_becomes_partition_two_with_its_table_filled() {
    let kernel = vec![7u8; 1000];
    let img = assemble(&loader(600), &kernel, ENTRIES, Some(&record())).unwrap();
    // Stage 2 at LBA 1-2, entries at 3, kernel at 4-5, the record at 6.
    let e2 = 446 + 16;
    assert_eq!(img[e2], 0, "not active");
    assert_eq!(img[e2 + 4], CHAIN_PARTITION_TYPE);
    assert_eq!(&img[e2 + 8..e2 + 16], &[6, 0, 0, 0, 1, 0, 0, 0]);
    assert_eq!(&img[454..458], &[1, 0, 0, 0], "partition 1 still starts at stage 2");
    assert_eq!(&img[458..462], &[5, 0, 0, 0], "and now ends before the record");
    let r = &img[6 * 512..7 * 512];
    assert_eq!(r[CHAIN_TABLE_OFFSET + 4], CHAIN_TEST_DRIVE);
    assert_eq!(&r[CHAIN_TABLE_OFFSET + 5..CHAIN_TABLE_OFFSET + 9], &[6, 0, 0, 0]);

    let mut unsigned = record();
    unsigned[511] = 0;
    assert!(assemble(&loader(600), &kernel, ENTRIES, Some(&unsigned)).is_err());
    let mut moved = record();
    moved[CHAIN_TABLE_OFFSET] = 0;
    assert!(assemble(&loader(600), &kernel, ENTRIES, Some(&moved)).is_err());
}

#[test]
fn identical_inputs_give_identical_disks() {
    let a = assemble(&loader(600), b"kernel", ENTRIES, None).unwrap();
    let b = assemble(&loader(600), b"kernel", ENTRIES, None).unwrap();
    assert_eq!(a, b);
    let c = assemble(&loader(600), b"kernel!", ENTRIES, None).unwrap();
    assert_ne!(a[440..444], c[440..444], "the disk signature follows the contents");
    let d = assemble(&loader(600), b"kernel", b"entry safe\n", None).unwrap();
    assert_ne!(a[440..444], d[440..444], "and follows the entries too");
}

#[test]
fn layout_violations_are_refused() {
    let k = b"kernel";
    assert!(
        assemble(&loader(600)[..512], k, ENTRIES, None)
            .unwrap_err()
            .contains("no stage 2")
    );

    let mut l = loader(600);
    l[511] = 0;
    assert!(
        assemble(&l, k, ENTRIES, None)
            .unwrap_err()
            .contains("0x55AA")
    );

    let mut l = loader(600);
    l[446] = 1;
    assert!(
        assemble(&l, k, ENTRIES, None)
            .unwrap_err()
            .contains("partition table")
    );

    let mut l = loader(600);
    l[STAGE1_TABLE_OFFSET] = 0;
    assert!(
        assemble(&l, k, ENTRIES, None)
            .unwrap_err()
            .contains("stage 1 table")
    );

    let mut l = loader(600);
    l[512 + LAYOUT.stage2_header_offset] = 0;
    assert!(
        assemble(&l, k, ENTRIES, None)
            .unwrap_err()
            .contains("stage 2 header")
    );

    let over = loader(STAGE2_MAX_SECTORS as usize * 512 + 1);
    assert!(
        assemble(&over, k, ENTRIES, None)
            .unwrap_err()
            .contains("budget")
    );
    let at_limit = loader(STAGE2_MAX_SECTORS as usize * 512);
    assert!(assemble(&at_limit, k, ENTRIES, None).is_ok());
}
