//! The rule on `cfg`.

use kbuild::lint::{check_source, Violation};

fn check(src: &str) -> Vec<Violation> {
    check_source("t.rs", src)
}

#[test]
fn cfg_on_a_module_is_allowed() {
    assert!(check("#[cfg(CONFIG_MM_PAGED)]\nmod paged;\n").is_empty());
    assert!(check("#[cfg(CONFIG_SMP)]\npub use smp::*;\n").is_empty());
}

#[test]
fn cfg_inside_a_function_is_rejected() {
    let v = check("fn schedule(&mut self) {\n    #[cfg(CONFIG_SMP)]\n    self.steal();\n}\n");
    assert_eq!(v.len(), 1, "{v:?}");
    assert_eq!(v[0].line, 2);
    assert_eq!(v[0].context, "a function body");
}

#[test]
fn cfg_on_a_struct_field_is_rejected() {
    let v = check("struct Task {\n    #[cfg(CONFIG_SMP)]\n    cpu: u32,\n}\n");
    assert_eq!(v.len(), 1, "{v:?}");
    assert_eq!(v[0].context, "a type's fields");
}

#[test]
fn cfg_on_a_method_in_an_impl_is_allowed() {
    // An impl block is an item position; a whole method may be configured out.
    assert!(check("impl Foo {\n    #[cfg(CONFIG_SMP)]\n    fn bar(&self) {}\n}\n").is_empty());
}

#[test]
fn nested_blocks_inside_a_function_still_count() {
    let v = check("fn f() {\n    if x {\n        #[cfg(CONFIG_SMP)]\n        g();\n    }\n}\n");
    assert_eq!(v.len(), 1, "{v:?}");
    assert_eq!(v[0].context, "a function body");
}

#[test]
fn cfg_in_a_match_arm_is_rejected() {
    let v = check(
        "fn f() {\n    match x {\n        #[cfg(CONFIG_SMP)]\n        A => 1,\n    }\n}\n",
    );
    assert_eq!(v.len(), 1, "{v:?}");
}

#[test]
fn test_modules_are_exempt() {
    // Tests describe which configurations they exercise; that is not the bug.
    assert!(check(
        "#[cfg(test)]\nmod tests {\n    fn t() {\n        #[cfg(CONFIG_SMP)]\n        let x = 1;\n    }\n}\n"
    )
    .is_empty());
}

#[test]
fn exemption_ends_with_the_test_module() {
    let v = check(
        "#[cfg(test)]\nmod tests {\n    fn t() {}\n}\n\nfn real() {\n    #[cfg(CONFIG_SMP)]\n    go();\n}\n",
    );
    assert_eq!(v.len(), 1, "{v:?}");
    assert_eq!(v[0].line, 7);
}

#[test]
fn braces_in_strings_do_not_confuse_the_scanner() {
    // If the scanner counted this brace, the following cfg would look nested.
    assert!(check("const S: &str = \"{\";\n#[cfg(CONFIG_SMP)]\nmod x;\n").is_empty());
}

#[test]
fn braces_in_comments_do_not_confuse_the_scanner() {
    assert!(check("// a stray { here\n#[cfg(CONFIG_SMP)]\nmod x;\n").is_empty());
}

#[test]
fn lifetimes_are_not_character_literals() {
    // A naive quote counter treats 'store as an unterminated char literal and
    // blanks the rest of the file, hiding every later violation.
    let v = check(
        "struct A<'store> { x: &'store u8 }\nfn f() {\n    #[cfg(CONFIG_SMP)]\n    g();\n}\n",
    );
    assert_eq!(v.len(), 1, "{v:?}");
}

#[test]
fn an_exemption_ends_with_its_item() {
    let report = |src: &str| check_source("t.rs", src).iter().map(|v| v.line).collect::<Vec<_>>();
    assert_eq!(report("#[cfg(test)]\nuse x;\nfn f() {\n    #[cfg(CONFIG_SMP)]\n    g();\n}\n"), [4]);
    assert_eq!(report("#[cfg(test)] mod t;\nfn f() {\n    #[cfg(CONFIG_SMP)]\n    g();\n}\n"), [3]);
    assert_eq!(report("#[cfg(test)]\nfn t() {\n    #[cfg(A)]\n    g();\n}\nfn f() {\n    #[cfg(A)]\n    g();\n}\n"), [7]);
    assert_eq!(report("fn f() {\n    #[cfg(test)]\n    g();\n    #[cfg(A)]\n    g();\n}\n"), [4]);
    assert_eq!(report("struct S {\n    #[cfg(test)]\n    a: u8,\n    #[cfg(A)]\n    b: u8,\n}\n"), [4]);
    assert!(report("#[cfg(test)]\nmod t {\n    use x;\n    fn f() {\n        #[cfg(A)]\n        g();\n    }\n}\n").is_empty());
    assert!(report("#![cfg(test)]\nuse x;\nfn f() {\n    #[cfg(A)]\n    g();\n}\n").is_empty());
}

#[test]
fn a_cfg_is_judged_by_where_it_stands() {
    let report = |src: &str| check_source("t.rs", src).iter().map(|v| (v.line, v.context)).collect::<Vec<_>>();
    assert_eq!(report("fn f() { #[cfg(CONFIG_SMP)] g(); }\n"), [(1, "a function body")]);
    assert_eq!(report("struct S { #[cfg(A)] x: u8 }\n"), [(1, "a type's fields")]);
    assert_eq!(report("pub struct S(\n    #[cfg(A)]\n    u8,\n);\n"), [(2, "a type's fields")]);
    assert!(report("impl S { #[cfg(A)] fn f() {} }\n#[cfg(A)]\nstruct T(u8);\n#[cfg(A)] mod m;\n").is_empty());
    assert!(report("#[cfg(test)] mod t { fn f() { #[cfg(A)] g(); } }\n").is_empty());
    assert_eq!(report("fn f() {\n} #[cfg(A)] fn g() {}\n"), [(2, "a function body")]);
}

#[test]
fn an_exemption_lasts_as_long_as_its_item() {
    let report = |src: &str| check_source("t.rs", src).iter().map(|v| v.line).collect::<Vec<_>>();
    // A test item inside a test module does not end the module's exemption.
    let nested = "#[cfg(test)]\nmod tests {\n    #[cfg(test)]\n    use x;\n    fn f() {\n        #[cfg(CONFIG_SMP)]\n        g();\n    }\n    fn h() {\n        #[cfg(A)]\n        g();\n    }\n}\nfn k() {\n    #[cfg(A)]\n    g();\n}\n";
    assert_eq!(report(nested), [15]);
    // Nor does what stands in brackets end an item.
    assert!(report("#[cfg(test)]\nimpl F for [u8; 4] {\n    fn f() {\n        #[cfg(A)]\n        g();\n    }\n}\n").is_empty());
    assert!(report("#[cfg(test)]\nfn f(a: [u8; 4], b: (u8, [u8; 2])) {\n    #[cfg(A)]\n    g();\n}\n").is_empty());
    let arms = "fn f() {\n    match x {\n        #[cfg(test)]\n        A::<B, C>(a, b) => {\n            #[cfg(A)]\n            g();\n        }\n        #[cfg(test)]\n        D => e(a, b),\n        #[cfg(A)]\n        F => 1,\n    }\n}\n";
    assert_eq!(report(arms), [10]);
    assert_eq!(report("enum E {\n    #[cfg(test)]\n    A(u8, u8),\n    #[cfg(A)]\n    B,\n}\n"), [4]);
}

#[test]
fn only_a_structs_parentheses_hold_fields() {
    let report = |src: &str| check_source("t.rs", src).iter().map(|v| v.line).collect::<Vec<_>>();
    assert!(report("/* Every struct here is packed. */\n#[cfg(CONFIG_SMP)]\nmod smp;\n").is_empty());
    assert!(report("/* Every struct here (all of them) is packed. */\n#[cfg(CONFIG_SMP)]\nmod smp;\n").is_empty());
    assert!(report("/* A struct (open */\n#[cfg(CONFIG_SMP)]\nmod smp;\n").is_empty());
    assert_eq!(report("#[derive(Debug)]\npub(crate) struct S<F: Fn(u8)>(\n    F,\n    #[cfg(A)]\n    u8,\n);\n"), [4]);
}
