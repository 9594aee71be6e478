//! Configuration files.

use kbuild::kcfg::expr::Tri;
use kbuild::kcfg::parse::{parse_tree, split_if, ParseError, SourceFile};
use kbuild::kcfg::{Kind, SymbolTable, Val};

fn parse_str(src: &str) -> Result<SymbolTable, ParseError> {
    parse_tree(&vec![SourceFile { path: "t.kcfg".to_string(), text: Ok(src.to_string()) }], "t.kcfg")
}

#[test]
fn parses_a_symbol_with_every_attribute() {
    let t = parse_str(
        r#"
config NR_CPUS
    int "Maximum number of CPUs"
    depends on SMP
    range 2 4096
    default 8
    help
        How many CPUs to support.
        Second line.
"#,
    )
    .unwrap();
    let s = t.get("NR_CPUS").unwrap();
    assert_eq!(s.kind, Kind::Int);
    assert_eq!(s.prompt.as_deref(), Some("Maximum number of CPUs"));
    assert_eq!(s.ranges.len(), 1);
    assert_eq!((s.ranges[0].lo, s.ranges[0].hi), (2, 4096));
    assert_eq!(s.defaults.len(), 1);
    assert_eq!(s.defaults[0].value, Val::Int(8));
    assert!(s.help.as_ref().unwrap().contains("Second line"));
    assert_eq!(s.depends.as_ref().unwrap().to_text(), "SMP");
}

#[test]
fn default_with_condition() {
    let t = parse_str("config A\n    bool\n    default y if B && C\n").unwrap();
    let d = &t.get("A").unwrap().defaults[0];
    assert_eq!(d.value, Val::Tri(Tri::Y));
    assert_eq!(d.cond.as_ref().unwrap().to_text(), "(B && C)");
}

#[test]
fn choice_collects_members() {
    let t = parse_str(
        r#"
choice MM_MODEL
    prompt "Memory model"
    default MM_FLAT
    config MM_PAGED
        bool "Paged"
        depends on ARCH_HAS_MMU
    config MM_FLAT
        bool "Flat"
endchoice
"#,
    )
    .unwrap();
    let c = t.choice("MM_MODEL").unwrap();
    assert_eq!(c.members, vec!["MM_PAGED", "MM_FLAT"]);
    assert_eq!(c.prompt.as_deref(), Some("Memory model"));
    assert_eq!(t.get("MM_PAGED").unwrap().choice.as_deref(), Some("MM_MODEL"));
}

#[test]
fn rejects_duplicate_symbols() {
    let e = parse_str("config A\n    bool\nconfig A\n    bool\n").unwrap_err();
    assert!(e.msg.contains("already defined"), "{}", e.msg);
}

#[test]
fn rejects_unterminated_choice() {
    let e = parse_str("choice C\n    config A\n        bool\n").unwrap_err();
    assert!(e.msg.contains("endchoice"), "{}", e.msg);
}

#[test]
fn rejects_m_for_bool() {
    let e = parse_str("config A\n    bool\n    default m\n").unwrap_err();
    assert!(e.msg.contains("not valid for a bool"), "{}", e.msg);
}

#[test]
fn if_splitting_does_not_trip_on_substrings() {
    // "MODIFY" contains "if" but must not be treated as the keyword.
    assert_eq!(split_if("MODIFY"), ("MODIFY".to_string(), None));
    assert_eq!(split_if("y if A"), ("y".to_string(), Some("A".to_string())));
}
