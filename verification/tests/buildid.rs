//! Build IDs.

use kbuild::buildid::{compute, id_offset, in_log, loads, stamped, LEN, MARKER};

/// A minimal little-endian ELF32 with one PT_LOAD covering the whole file, holding
/// `payload` at offset 0x54.
fn elf32(payload: &[u8]) -> Vec<u8> {
    let mut d = vec![0u8; 0x54];
    d[..4].copy_from_slice(b"\x7fELF");
    d[4] = 1; // class 32
    d[5] = 1; // little-endian
    d[0x18..0x1c].copy_from_slice(&0x100000u32.to_le_bytes()); // entry
    d[0x1c..0x20].copy_from_slice(&0x34u32.to_le_bytes()); // phoff
    d[0x2a..0x2c].copy_from_slice(&0x20u16.to_le_bytes()); // phentsize
    d[0x2c..0x2e].copy_from_slice(&1u16.to_le_bytes()); // phnum
    d.extend_from_slice(payload);
    let len = d.len() as u32;
    let ph = 0x34;
    d[ph..ph + 4].copy_from_slice(&1u32.to_le_bytes()); // PT_LOAD
    d[ph + 0x04..ph + 0x08].copy_from_slice(&0u32.to_le_bytes()); // offset
    d[ph + 0x08..ph + 0x0c].copy_from_slice(&0x100000u32.to_le_bytes()); // vaddr
    d[ph + 0x10..ph + 0x14].copy_from_slice(&len.to_le_bytes()); // filesz
    d[ph + 0x14..ph + 0x18].copy_from_slice(&len.to_le_bytes()); // memsz
    d[ph + 0x18..ph + 0x1c].copy_from_slice(&5u32.to_le_bytes()); // R+X
    d
}

fn image(code: &[u8]) -> Vec<u8> {
    let mut p = code.to_vec();
    p.extend_from_slice(&MARKER);
    p.extend_from_slice(&[0u8; LEN]);
    p.extend_from_slice(b"tail");
    elf32(&p)
}

#[test]
fn stamping_is_idempotent_and_does_not_hash_itself() {
    let mut img = image(b"some code");
    let id = compute(&img).unwrap();
    assert_ne!(id, [0; LEN]);
    let (_, segs) = loads(&img).unwrap();
    let at = id_offset(&img, &segs).unwrap();
    img[at..at + LEN].copy_from_slice(&id);
    assert_eq!(compute(&img).unwrap(), id, "the stamped image hashes to its own ID");
    assert_eq!(stamped(&img).unwrap(), id);
}

#[test]
fn different_code_gets_a_different_id() {
    assert_ne!(compute(&image(b"some code")).unwrap(), compute(&image(b"other code")).unwrap());
}

#[test]
fn a_marker_that_is_missing_or_repeated_is_refused() {
    let none = elf32(b"no marker here at all, not one");
    assert!(compute(&none).unwrap_err().contains("no build ID marker"));
    let mut twice = MARKER.to_vec();
    twice.extend_from_slice(&[0; LEN]);
    twice.extend_from_slice(&MARKER);
    twice.extend_from_slice(&[0; LEN]);
    assert!(compute(&elf32(&twice)).unwrap_err().contains("2 times"));
}

#[test]
fn ids_are_found_in_a_log() {
    let log = "backtrace:\r\n  bt build 0011aabb\r\n  bt pc 0x10\nbt build ffee\n";
    assert_eq!(in_log(log), ["0011aabb", "ffee"]);
}

#[test]
fn what_is_not_loaded_does_not_count() {
    let mut img = image(b"some code");
    let loaded = img.len();
    img.extend_from_slice(b"symbols and names");
    let id = compute(&img).unwrap();
    let mut other = img.clone();
    other[loaded..].copy_from_slice(b"other notes here!");
    assert_eq!(compute(&other).unwrap(), id, "nothing loads those bytes");
    let at = id_offset(&img, &loads(&img).unwrap().1).unwrap();
    other[at..at + LEN].copy_from_slice(&[0xA5; LEN]);
    assert_eq!(compute(&other).unwrap(), id, "nor does the ID hash itself");
    other[at + LEN] ^= 1;
    assert_ne!(compute(&other).unwrap(), id, "the tail is loaded");
}
