//! The command line.

use kbuild::options;
use kbuild::options::Opts;

fn parse_opts(args: &[String]) -> Result<Opts, String> {
    options::parse_opts(args, 0)
}

fn args(list: &[&str]) -> Vec<String> {
    list.iter().map(|s| s.to_string()).collect()
}

// `--target` is two options told apart by what follows: alone it asks `test` for the
// in-kernel suite, as it always has; with a name it names a `fuzz` target. These pin
// that the older meaning did not change when the newer one arrived.
#[test]
fn a_bare_target_flag_still_means_the_in_kernel_suite() {
    let o = parse_opts(&args(&["--target", "--preset", "x86_64-qemu"])).unwrap();
    assert!(o.in_kernel);
    assert!(o.target.is_none());
    assert_eq!(o.preset.as_deref(), Some("x86_64-qemu"));

    let o = parse_opts(&args(&["--target"])).unwrap();
    assert!(o.in_kernel);
    assert!(o.target.is_none());
}

#[test]
fn a_target_followed_by_a_name_names_a_fuzz_target() {
    let o = parse_opts(&args(&["--target", "fdt", "--iterations", "50"])).unwrap();
    assert!(!o.in_kernel, "naming a target is not asking for in-kernel tests");
    assert_eq!(o.target.as_deref(), Some("fdt"));
    assert_eq!(o.iterations, 50);
}

#[test]
fn fuzz_options_parse_and_have_defaults() {
    let o = parse_opts(&args(&["--smoke", "--corpus", "c", "--file", "f"])).unwrap();
    assert!(o.smoke);
    assert_eq!(o.corpus.as_deref(), Some("c"));
    assert_eq!(o.file.as_deref(), Some("f"));
    assert_eq!(parse_opts(&[]).unwrap().iterations, 1000);
    assert!(parse_opts(&args(&["--iterations", "lots"])).is_err());
    assert!(parse_opts(&args(&["--corpus"])).is_err());
}
