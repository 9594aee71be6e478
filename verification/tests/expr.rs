//! Conditions.

use kbuild::kcfg::expr::{parse, Expr, Tri};

fn t(name: &str) -> Tri {
    match name {
        "A" | "ON" => Tri::Y,
        "M" => Tri::M,
        _ => Tri::N,
    }
}
fn l(name: &str) -> String {
    match name {
        "ARCH" => "x86_64".into(),
        _ => String::new(),
    }
}
fn ev(s: &str) -> Tri {
    parse(s).unwrap().eval(&t, &l)
}

#[test]
fn basic_logic() {
    assert_eq!(ev("A"), Tri::Y);
    assert_eq!(ev("B"), Tri::N);
    assert_eq!(ev("!B"), Tri::Y);
    assert_eq!(ev("A && B"), Tri::N);
    assert_eq!(ev("A || B"), Tri::Y);
    assert_eq!(ev("!(A && B)"), Tri::Y);
}

#[test]
fn precedence_and_grouping() {
    // && binds tighter than ||
    assert_eq!(ev("B && B || A"), Tri::Y);
    assert_eq!(ev("A || B && B"), Tri::Y);
    assert_eq!(ev("(A || B) && B"), Tri::N);
}

#[test]
fn tristate_is_ordered() {
    assert_eq!(ev("M && A"), Tri::M);
    assert_eq!(ev("M || A"), Tri::Y);
    assert_eq!(ev("!M"), Tri::M);
}

#[test]
fn comparisons() {
    assert_eq!(ev("ARCH = x86_64"), Tri::Y);
    assert_eq!(ev("ARCH = aarch64"), Tri::N);
    assert_eq!(ev("ARCH != aarch64"), Tri::Y);
    assert_eq!(ev(r#"ARCH = "x86_64""#), Tri::Y);
}

#[test]
fn literals_are_not_symbols() {
    assert_eq!(ev("y"), Tri::Y);
    assert_eq!(ev("n"), Tri::N);
    // but a longer identifier starting with y is a symbol
    assert_eq!(parse("yes").unwrap(), Expr::Sym("yes".into()));
}

#[test]
fn collects_symbols() {
    let mut v = Vec::new();
    parse("A && (B || ARCH = x86_64)").unwrap().symbols(&mut v);
    assert_eq!(v, vec!["A", "B", "ARCH"]);
}

#[test]
fn what_was_parsed_reads_back_from_its_text() {
    for s in ["A", "!A && (B || C)", "A = y || B != 12 && !!C", "(n)", "m-x_1", "!( A=b )"] {
        let e = parse(s).unwrap();
        assert_eq!(parse(&e.to_text()), Ok(e.clone()), "{s}");
    }
    // A value in quotation marks need not be a word.
    let e = parse("A = \"two words\"").unwrap();
    assert!(parse(&e.to_text()).is_err());
}
