//! Resolving a configuration.

use kbuild::kcfg::parse::{parse_tree, SourceFile};
use kbuild::kcfg::resolve::{resolve, Reason, Request};
use kbuild::kcfg::SymbolTable;

fn table(src: &str) -> SymbolTable {
    parse_tree(&vec![SourceFile { path: "t.kcfg".to_string(), text: Ok(src.to_string()) }], "t.kcfg").unwrap()
}

fn req(pairs: &[(&str, &str)]) -> Vec<Request> {
    pairs
        .iter()
        .map(|(s, v)| Request {
            symbol: s.to_string(),
            text: v.to_string(),
            source: "test".into(),
        })
        .collect()
}

const BASE: &str = r#"
config ARCH_HAS_MMU
    bool
    readonly
    default y

config ARCH_HAS_SMP
    bool
    readonly
    default y

config SMP
    bool "SMP"
    depends on ARCH_HAS_SMP
    default y if ARCH_HAS_SMP

config NUMA
    bool "NUMA"
    select SMP

config NR_CPUS
    int "CPUs"
    depends on SMP
    range 2 4096
    default 8
"#;

#[test]
fn defaults_apply_and_dependencies_propagate() {
    let t = table(BASE);
    let r = resolve(&t, &[]).unwrap();
    assert!(r.is_on("SMP"));
    assert_eq!(r.int_value("NR_CPUS"), 8);
    assert!(!r.is_on("NUMA"));
}

#[test]
fn select_forces_and_conflicts_are_explained() {
    let t = table(BASE);
    // NUMA selects SMP, so SMP=n is a contradiction, not a silent override.
    let errs = resolve(&t, &req(&[("NUMA", "y"), ("SMP", "n")])).unwrap_err();
    let text = errs.iter().map(|e| e.to_text()).collect::<String>();
    assert!(text.contains("cannot set SMP=n"), "{text}");
    assert!(text.contains("selected by NUMA"), "{text}");
    assert!(text.contains("first disable NUMA"), "{text}");
}

#[test]
fn unmet_dependency_is_reported_with_the_chain() {
    let t = table(BASE);
    let errs = resolve(&t, &req(&[("SMP", "n"), ("NR_CPUS", "64")])).unwrap_err();
    let text = errs.iter().map(|e| e.to_text()).collect::<String>();
    assert!(text.contains("NR_CPUS"), "{text}");
    assert!(text.contains("depends on"), "{text}");
}

#[test]
fn dependent_symbols_are_off_when_parent_is_off() {
    let t = table(BASE);
    let r = resolve(&t, &req(&[("SMP", "n")])).unwrap();
    assert!(!r.is_on("SMP"));
    assert_eq!(r.int_value("NR_CPUS"), 0);
    assert!(matches!(r.reason("NR_CPUS").unwrap(), Reason::DependsUnmet(_)));
}

#[test]
fn range_violations_are_caught() {
    let t = table(BASE);
    let errs = resolve(&t, &req(&[("NR_CPUS", "9000")])).unwrap_err();
    assert!(errs[0].to_text().contains("outside its range"));
}

#[test]
fn readonly_symbols_reject_assignment() {
    let t = table(BASE);
    let errs = resolve(&t, &req(&[("ARCH_HAS_MMU", "n")])).unwrap_err();
    assert!(errs[0].to_text().contains("not user-settable"));
}

#[test]
fn unknown_symbol_suggests_a_neighbour() {
    let t = table(BASE);
    let errs = resolve(&t, &req(&[("NR_CPU", "4")])).unwrap_err();
    let s = errs[0].to_text();
    assert!(s.contains("unknown configuration symbol"), "{s}");
    assert!(s.contains("NR_CPUS"), "{s}");
}

#[test]
fn choice_picks_exactly_one_member() {
    let t = table(
        r#"
config ARCH_HAS_MMU
    bool
    readonly
    default y

choice MM_MODEL
    prompt "Memory model"
    default MM_PAGED if ARCH_HAS_MMU
    default MM_FLAT
    config MM_PAGED
        bool "Paged"
        depends on ARCH_HAS_MMU
    config MM_FLAT
        bool "Flat"
endchoice
"#,
    );
    let r = resolve(&t, &[]).unwrap();
    assert!(r.is_on("MM_PAGED"));
    assert!(!r.is_on("MM_FLAT"));

    let r = resolve(&t, &req(&[("MM_FLAT", "y")])).unwrap();
    assert!(r.is_on("MM_FLAT"));
    assert!(!r.is_on("MM_PAGED"));
}

#[test]
fn choice_falls_back_when_a_member_is_unavailable() {
    // Without an MMU, MM_PAGED is not usable and the choice must pick MM_FLAT.
    let t = table(
        r#"
config ARCH_HAS_MMU
    bool
    readonly
    default n

choice MM_MODEL
    prompt "Memory model"
    default MM_PAGED if ARCH_HAS_MMU
    default MM_FLAT
    config MM_PAGED
        bool "Paged"
        depends on ARCH_HAS_MMU
    config MM_FLAT
        bool "Flat"
endchoice
"#,
    );
    let r = resolve(&t, &[]).unwrap();
    assert!(r.is_on("MM_FLAT"), "must fall back to the flat model");
    assert!(!r.is_on("MM_PAGED"));
}

#[test]
fn every_symbol_gets_a_recorded_reason() {
    let t = table(BASE);
    let r = resolve(&t, &[]).unwrap();
    for s in &t.symbols {
        let name = s.name.as_str();
        assert!(r.reason(name).is_some(), "{name} has no reason");
        assert!(r.value(name).is_some(), "{name} has no value");
    }
}

#[test]
fn a_member_that_depends_on_its_own_absence_is_on() {
    let t = table("choice C\n    config A\n        bool \"a\"\n        depends on !A\nendchoice\nconfig B\n    bool\n    default y if A\n");
    let r = resolve(&t, &[]).unwrap();
    // It is off while it is decided, so that nothing speaks against it.
    assert!(r.is_on("A"));
    assert!(!r.is_on("B"), "what comes before the choice sees it off");
}
