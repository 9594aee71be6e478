//! Cutting the power on a guest.

use kbuild::crashtest::{next, ops_seen};

#[test]
fn the_last_operation_count_printed_is_the_one_read() {
    let console = b"boot\nfscrash: writing\nfscrash: 64 ops\nfscrash: 128 ops\nfscrash: 1";
    assert_eq!(ops_seen(console), 128);
    assert_eq!(ops_seen(b"nothing"), 0);
}

#[test]
fn cut_points_follow_the_seed() {
    let (mut a, mut b) = (7, 7);
    let xs: Vec<u64> = (0..4).map(|_| next(&mut a) % 3001).collect();
    let ys: Vec<u64> = (0..4).map(|_| next(&mut b) % 3001).collect();
    assert_eq!(xs, ys);
    assert!(xs.windows(2).any(|w| w[0] != w[1]));
}
