//! The checks on a guest's disk after it ran.

use kbuild::diskcheck::{verify_clean as verify_clean_of, verify_crashed as verify_crashed_of, Crashed, Output, CRASH_SEED};
use kbuild::fat16::{self, File, Params};

/// What the native check writes: where, how long, and the seed of its bytes.
const NATIVE_OUT: (&str, usize, u8) = ("NATIVE.OUT", 3000, 0x11);

/// What should be gone after a clean exit.
const REMOVED: [&str; 1] = ["GONE.TXT"];

fn out_byte(seed: u8, i: usize) -> u8 {
    seed ^ (i as u8) ^ ((i >> 8) as u8)
}

fn verify_clean(bytes: &[u8], console: &str) -> Result<String, String> {
    let (path, len, seed) = NATIVE_OUT;
    let outs = vec![Output { path: path.to_string(), len, seed }];
    let removed = vec![REMOVED[0].to_string()];
    verify_clean_of(bytes, console, &outs, &removed, &out_byte)
}

fn verify_crashed(bytes: &[u8]) -> Result<Crashed, String> {
    verify_crashed_of(bytes, &out_byte)
}

fn params() -> Params {
    Params {
        sectors: 8192,
        sectors_per_cluster: 1,
        reserved_sectors: 1,
        fats: 2,
        root_entries: 64,
        hidden_sectors: 0,
        label: *b"TEST       ",
        volume_id: 1,
        what: "a test volume",
    }
}

fn seeded(seed: u8, len: usize) -> Vec<u8> {
    (0..len).map(|i| out_byte(seed, i)).collect()
}

#[test]
fn a_file_the_kernel_claims_is_checked_and_one_it_does_not_is_not() {
    let (path, len, seed) = NATIVE_OUT;
    let good = seeded(seed, len);
    let v = fat16::volume(&[File { path, data: &good }], &params()).unwrap();
    let claim = format!("... /{path} read back ...");
    assert!(verify_clean(&v, &claim).unwrap().contains(path));
    let mut bad = good.clone();
    bad[999] ^= 1;
    let v = fat16::volume(&[File { path, data: &bad }], &params()).unwrap();
    assert!(verify_clean(&v, &claim).is_err());
    assert!(verify_clean(&v, "no claim").is_ok(), "no claim, nothing to hold the kernel to");
    let v = fat16::volume(
        &[File {
            path: REMOVED[0],
            data: b"x",
        }],
        &params(),
    )
    .unwrap();
    assert!(
        verify_clean(&v, "")
            .unwrap_err()
            .contains("still on the disk image")
    );
}

#[test]
fn a_crash_file_is_checked_below_its_size() {
    let good = seeded(CRASH_SEED, 3000);
    let v = fat16::volume(
        &[File {
            path: "CRASH/F1.BIN",
            data: &good,
        }],
        &params(),
    )
    .unwrap();
    let c = verify_crashed(&v).unwrap();
    assert_eq!((c.crash_files, c.crash_bytes), (1, 3000));
    let mut hole = good.clone();
    hole[2000..2100].fill(0);
    let v = fat16::volume(
        &[File {
            path: "CRASH/F1.BIN",
            data: &hole,
        }],
        &params(),
    )
    .unwrap();
    assert!(verify_crashed(&v).unwrap_err().contains("never wrote"));
}
