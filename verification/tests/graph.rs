//! The unit graph.

use kbuild::graph::{plan, Kind, Unit};
use kbuild::kcfg::expr;
use kbuild::kcfg::expr::Tri;
use kbuild::kcfg::resolve::{Reason, Resolution};
use kbuild::kcfg::Val;

fn unit(name: &str, layer: &str, deps: &[&str]) -> Unit {
    Unit {
        name: name.into(),
        kind: Kind::Lib,
        dir: ".".to_string(),
        root: "src/lib.rs".to_string(),
        deps: deps.iter().map(|s| s.to_string()).collect(),
        layer: layer.into(),
        requires: None,
        rustflags: vec![],
        host_tests: false,
        target: None,
        manifest: "kmod.toml".to_string(),
    }
}

#[test]
fn dependencies_come_first() {
    let units = vec![
        unit("kernel", "kernel", &["mm", "hal"]),
        unit("mm", "core", &["hal"]),
        unit("hal", "hal", &[]),
    ];
    let ordered = plan(units, &Resolution::new()).unwrap();
    let pos = |n: &str| ordered.iter().position(|u| u.name == n).unwrap();
    assert!(pos("hal") < pos("mm"));
    assert!(pos("mm") < pos("kernel"));
}

#[test]
fn upward_dependencies_are_rejected() {
    let units = vec![unit("hal", "hal", &["mm"]), unit("mm", "core", &[])];
    let e = plan(units, &Resolution::new()).unwrap_err();
    assert!(e.contains("layering violation"), "{e}");
}

#[test]
fn only_the_image_may_name_arch() {
    let bad = vec![
        unit("mm", "core", &["arch_x86_64"]),
        unit("arch_x86_64", "arch", &[]),
    ];
    let e = plan(bad, &Resolution::new()).unwrap_err();
    assert!(e.contains("only the kernel image may link arch"), "{e}");

    let good = vec![
        unit("kernel", "kernel", &["arch_x86_64"]),
        unit("arch_x86_64", "arch", &[]),
    ];
    assert!(plan(good, &Resolution::new()).is_ok());
}

#[test]
fn cycles_are_named() {
    let units = vec![unit("a", "core", &["b"]), unit("b", "core", &["a"])];
    let e = plan(units, &Resolution::new()).unwrap_err();
    assert!(e.contains("dependency cycle"), "{e}");
}

#[test]
fn several_units_may_provide_one_name_if_config_picks_one() {
    // Two arch crates both called "arch": the configuration selects one, and the
    // kernel image depends on the name rather than on a specific architecture.
    let mut a = unit("arch", "arch", &[]);
    a.requires = Some(expr::parse("ARCH_A").unwrap());
    a.dir = "arch/a".to_string();
    let mut b = unit("arch", "arch", &[]);
    b.requires = Some(expr::parse("ARCH_B").unwrap());
    b.dir = "arch/b".to_string();

    // Neither selected: both filtered out, nothing to build.
    assert!(
        plan(vec![a.clone(), b.clone()], &Resolution::new())
            .unwrap()
            .is_empty()
    );
}

#[test]
fn two_enabled_providers_of_one_name_is_an_error() {
    let a = unit("arch", "arch", &[]);
    let b = unit("arch", "arch", &[]);
    let e = plan(vec![a, b], &Resolution::new()).unwrap_err();
    assert!(e.contains("provided by two units"), "{e}");
}

#[test]
fn a_loader_may_link_the_protocol_but_nothing_above_it() {
    let mut loader = unit("kinboot", "loader", &["boot_protocol"]);
    loader.kind = Kind::Bin;
    loader.target = Some("x86_64-unknown-uefi".into());
    let ok = vec![loader.clone(), unit("boot_protocol", "hal", &[])];
    assert!(plan(ok, &Resolution::new()).is_ok());

    let mut greedy = loader;
    greedy.deps.push("mm".into());
    let bad = vec![
        greedy,
        unit("boot_protocol", "hal", &[]),
        unit("mm", "core", &[]),
    ];
    let e = plan(bad, &Resolution::new()).unwrap_err();
    assert!(e.contains("layering violation"), "{e}");
}

#[test]
fn nothing_may_link_an_image_built_for_another_target() {
    let mut loader = unit("kinboot", "loader", &[]);
    loader.kind = Kind::Bin;
    loader.target = Some("x86_64-unknown-uefi".into());
    let units = vec![loader, unit("kernel", "kernel", &["kinboot"])];
    let e = plan(units, &Resolution::new()).unwrap_err();
    assert!(e.contains("image of its own"), "{e}");
}

#[test]
fn missing_dependency_explains_itself() {
    let units = vec![unit("a", "core", &["nope"])];
    let e = plan(units, &Resolution::new()).unwrap_err();
    assert!(e.contains("not in this configuration"), "{e}");
}

fn tri(values: &[(&str, Tri)]) -> Resolution {
    let mut r = Resolution::new();
    for (k, v) in values {
        r.set(k, Val::Tri(*v), Reason::Unset);
    }
    r
}

#[test]
fn m_enables_exactly_the_units_that_can_be_modules() {
    let mut module = unit("hello", "subsystem", &["api"]);
    module.kind = Kind::Module;
    module.requires = Some(expr::parse("HELLO").unwrap());
    let units = || vec![module.clone(), unit("api", "core", &[])];

    let ordered = plan(units(), &tri(&[("HELLO", Tri::M)])).unwrap();
    assert!(ordered.iter().any(|u| u.name == "hello"));
    assert!(
        plan(units(), &tri(&[("HELLO", Tri::N)]))
            .unwrap()
            .iter()
            .all(|u| u.name != "hello")
    );
    let e = plan(units(), &tri(&[("HELLO", Tri::Y)])).unwrap_err();
    assert!(e.contains("can only be built as a loadable module"), "{e}");

    let mut lib = unit("driver", "device", &[]);
    lib.requires = Some(expr::parse("DRIVER").unwrap());
    let e = plan(vec![lib], &tri(&[("DRIVER", Tri::M)])).unwrap_err();
    assert!(e.contains("a lib unit cannot be a loadable module"), "{e}");
}

#[test]
fn nothing_links_a_module_and_a_module_links_nothing_above_core() {
    let mut module = unit("hello", "subsystem", &[]);
    module.kind = Kind::Module;
    module.requires = Some(expr::parse("HELLO").unwrap());
    let res = tri(&[("HELLO", Tri::M)]);

    let e = plan(vec![module.clone(), unit("kernel", "kernel", &["hello"])], &res).unwrap_err();
    assert!(e.contains("which nothing links against"), "{e}");

    let mut greedy = module;
    greedy.deps.push("sched".into());
    let e = plan(vec![greedy, unit("sched", "subsystem", &[])], &res).unwrap_err();
    assert!(e.contains("a module links only units at `core` or below"), "{e}");
}

#[test]
fn units_excluded_by_config_are_dropped() {
    let mut u = unit("optional", "core", &[]);
    u.requires = Some(expr::parse("FEATURE").unwrap());
    let ordered = plan(vec![u], &Resolution::new()).unwrap();
    assert!(ordered.is_empty(), "FEATURE is off, so the unit is not built");
}
