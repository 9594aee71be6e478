//! Cache keys.

use kbuild::cache::KeyBuilder;

fn key(tc: &str, fields: &[(&str, &str)], args: &[&str]) -> String {
    let mut kb = KeyBuilder::new(tc);
    for (k, v) in fields {
        kb.field(k, v);
    }
    let owned: Vec<String> = args.iter().map(|s| s.to_string()).collect();
    kb.args(&owned);
    kb.finish()
}

#[test]
fn key_changes_with_every_input() {
    let base = key("tc1", &[("name", "mm")], &[]);
    assert_ne!(base, key("tc2", &[("name", "mm")], &[]), "toolchain must affect the key");
    assert_ne!(base, key("tc1", &[("name", "vfs")], &[]), "unit name must affect the key");
}

#[test]
fn key_is_stable_for_identical_input() {
    let a = key("tc", &[("x", "1")], &["-C", "opt-level=2"]);
    let b = key("tc", &[("x", "1")], &["-C", "opt-level=2"]);
    assert_eq!(a, b);
}

#[test]
fn argument_order_matters() {
    assert_ne!(key("tc", &[], &["a", "b"]), key("tc", &[], &["b", "a"]));
}

#[test]
fn field_separators_prevent_collisions() {
    // "ab"+"c" must not hash the same as "a"+"bc".
    let a = key("t", &[("k", "ab"), ("j", "c")], &[]);
    let b = key("t", &[("k", "a"), ("j", "bc")], &[]);
    assert_ne!(a, b);
}
