//! Generated configurations.

use std::collections::BTreeSet;

use kbuild::kcfg::expr::Tri;
use kbuild::kcfg::parse::{parse_tree, SourceFile};
use kbuild::kcfg::random::{generate, Mode, Rng};
use kbuild::kcfg::resolve::{resolve, Request, Resolution};
use kbuild::kcfg::SymbolTable;

fn table(src: &str) -> SymbolTable {
    parse_tree(&vec![SourceFile { path: "t.kcfg".to_string(), text: Ok(src.to_string()) }], "t.kcfg").unwrap()
}

fn req(pairs: &[(&str, &str)]) -> Vec<Request> {
    pairs
        .iter()
        .map(|(s, v)| Request {
            symbol: s.to_string(),
            text: v.to_string(),
            source: "test".into(),
        })
        .collect()
}

fn values(res: &Resolution) -> Vec<(String, String)> {
    res.entries.iter().map(|e| (e.name.clone(), e.value.display())).collect()
}

const TREE: &str = r#"
config MODULES
    bool "Modules"

config BEFORE_ITS_DEPENDENCY
    bool "declared before what it depends on"
    depends on AFTER

config AFTER
    bool "after"

config HW
    bool "hardware"

config DRIVER
    tristate "driver"
    depends on HW

config FEATURE
    bool "feature"
    select DRIVER if HW

config LOCKED
    bool "cannot be off while FEATURE is on"
    depends on HW

config NEEDS_FEATURE
    bool "needs the feature"
    depends on FEATURE

choice ARCH
    prompt "arch"
    default A1
    config A1
        bool "a1"
    config A2
        bool "a2"
    config A3
        bool "a3"
        depends on HW
endchoice

config COUNT
    int "count"
    range 2 4 if A2
    range 2 16
    default 3

config ADDR
    hex "addr"
    range 0x1000 0xffffffffffffffff
    default 0x1000

config DERIVED
    bool
    default y if FEATURE

config HARDWARE
    bool
    readonly
    default y
"#;

#[test]
fn every_seed_gives_a_configuration_that_resolves_again_from_its_requests() {
    let t = table(TREE);
    for seed in 0..300 {
        let (res, requests) = generate(&t, &[], Mode::Random(seed)).unwrap();
        let again =
            resolve(&t, &requests).unwrap_or_else(|e| panic!("seed {seed}: {}", e[0].to_text()));
        assert_eq!(values(&again), values(&res), "seed {seed}");
        // And nothing a person could not have asked for.
        for r in &requests {
            assert!(t.get(&r.symbol).unwrap().settable(), "seed {seed} set {}", r.symbol);
        }
    }
}

#[test]
fn the_same_seed_is_the_same_configuration_and_seeds_differ() {
    let t = table(TREE);
    let a = generate(&t, &[], Mode::Random(42)).unwrap().1;
    let b = generate(&t, &[], Mode::Random(42)).unwrap().1;
    assert_eq!(a, b);
    let distinct: BTreeSet<String> = (0..50)
        .map(|s| format!("{:?}", values(&generate(&t, &[], Mode::Random(s)).unwrap().0)))
        .collect();
    assert!(distinct.len() > 20, "only {} distinct configurations", distinct.len());
}

#[test]
fn random_samples_cover_both_values_every_member_modules_and_range_bounds() {
    let t = table(TREE);
    let mut seen = BTreeSet::<(String, String)>::new();
    for seed in 0..400 {
        let res = generate(&t, &[], Mode::Random(seed)).unwrap().0;
        for (k, v) in values(&res) {
            seen.insert((k, v));
        }
    }
    for want in [
        ("HW", "y"),
        ("HW", "n"),
        ("DRIVER", "m"),
        ("DRIVER", "y"),
        ("A1", "y"),
        ("A2", "y"),
        ("A3", "y"),
        ("COUNT", "2"),
        ("COUNT", "16"),
        ("COUNT", "4"),
        ("ADDR", "0xffffffffffffffff"),
        ("NEEDS_FEATURE", "y"),
    ] {
        assert!(
            seen.contains(&(want.0.to_string(), want.1.to_string())),
            "never generated {}={}",
            want.0,
            want.1
        );
    }
}

#[test]
fn base_requests_are_kept_and_never_contradicted() {
    let t = table(TREE);
    let base = req(&[("A2", "y"), ("HW", "n")]);
    for seed in 0..100 {
        let (res, requests) = generate(&t, &base, Mode::Random(seed)).unwrap();
        assert_eq!(&requests[..2], &base[..]);
        assert!(res.is_on("A2") && !res.is_on("HW"), "seed {seed}");
        assert!(res.int_value("COUNT") <= 4, "the A2 range holds, seed {seed}");
    }
}

#[test]
fn allyes_and_allno_reach_the_boundaries() {
    let t = table(TREE);
    let (yes, _) = generate(&t, &[], Mode::AllYes).unwrap();
    // BEFORE_ITS_DEPENDENCY is unavailable when first visited, so it needs the second
    // pass.
    for s in [
        "MODULES",
        "HW",
        "FEATURE",
        "LOCKED",
        "NEEDS_FEATURE",
        "BEFORE_ITS_DEPENDENCY",
    ] {
        assert!(yes.is_on(s), "allyes left {s} off");
    }
    assert_eq!(yes.tri("DRIVER"), Tri::Y, "allyes means built in, not m");
    assert!(yes.is_on("A1"), "a choice keeps its default");

    let (no, _) = generate(&t, &[], Mode::AllNo).unwrap();
    for s in [
        "MODULES",
        "HW",
        "FEATURE",
        "LOCKED",
        "NEEDS_FEATURE",
        "DRIVER",
    ] {
        assert!(!no.is_on(s), "allno left {s} on");
    }
    assert!(no.is_on("HARDWARE"), "readonly symbols are not the generator's");
}

#[test]
fn a_base_that_does_not_resolve_is_an_error_not_a_sample() {
    let t = table(TREE);
    assert!(generate(&t, &req(&[("NOPE", "y")]), Mode::AllNo).is_err());
}

#[test]
fn below_is_in_range_and_between_hits_both_ends() {
    let mut r = Rng::new(7);
    let mut ends = (false, false);
    for _ in 0..1000 {
        assert!(r.below(3) < 3);
        let v = r.between(-2, 2);
        assert!((-2..=2).contains(&v));
        ends.0 |= v == -2;
        ends.1 |= v == 2;
    }
    assert!(ends.0 && ends.1);
}
