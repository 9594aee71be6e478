//! Loadable modules.

use kbuild::digest::Sha256;
use kbuild::modules::{bundle_bytes, identity_section, ENTRY_LEN, NAME_LEN};

fn digest(data: &[u8]) -> Vec<u8> {
    let mut h = Sha256::new();
    h.update(data);
    h.finish()
}

#[test]
fn a_bundle_lays_modules_out_on_8_byte_boundaries() {
    let b = bundle_bytes(&[("a".into(), vec![1, 2, 3]), ("bb".into(), vec![9; 9])]).unwrap();
    assert_eq!(&b[..8], b"KTBUNDL1");
    assert_eq!(u32::from_le_bytes(b[8..12].try_into().unwrap()), 2);
    assert_eq!(u32::from_le_bytes(b[12..16].try_into().unwrap()) as usize, b.len());
    let entry = |i: usize| {
        let e = &b[16 + i * ENTRY_LEN..16 + (i + 1) * ENTRY_LEN];
        let off = u32::from_le_bytes(e[40..44].try_into().unwrap()) as usize;
        let len = u32::from_le_bytes(e[44..48].try_into().unwrap()) as usize;
        (e[..NAME_LEN].iter().take_while(|&&c| c != 0).count(), off, len)
    };
    assert_eq!(entry(0), (1, 112, 3));
    assert_eq!(entry(1), (2, 120, 9));
    assert_eq!(&b[120..129], &[9; 9]);
    assert!(bundle_bytes(&[("x".repeat(41), vec![])]).is_err());
}

#[test]
fn the_identity_section_is_magic_hash_length_text() {
    let s = identity_section("abc");
    assert_eq!(&s[..8], b"KTIDENT1");
    assert_eq!(s[8..40], digest(b"abc"));
    assert_eq!(&s[40..44], &3u32.to_le_bytes());
    assert_eq!(&s[44..], b"abc");
}
