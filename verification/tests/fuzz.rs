//! Fuzzing.

use kbuild::fuzz::parse_list;

#[test]
fn the_target_list_is_the_first_word_of_each_line() {
    let out =
        "fdt          device tree blobs\nacpi         ACPI tables\n\nvirtio-ring  a ring\n";
    assert_eq!(parse_list(out), ["fdt", "acpi", "virtio-ring"]);
}

#[test]
fn an_empty_list_names_no_targets() {
    assert!(parse_list("").is_empty());
    assert!(parse_list("\n\n").is_empty());
}
