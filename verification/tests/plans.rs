//! What is built, and with what.

use kbuild::build::derived::{
    chaintest_unit, foreign_build, link_args, loader_build, loader_unit, module_line, module_units, stamp_args,
    template_unit,
};
use kbuild::build::package::{check_loader, esp_files, packaging, Packaging};
use kbuild::build::steps::{foreign_units, link_script, linked, opt_level, steps, target_name};
use kbuild::build::{embed_var, find_built, put, Build, Built, Target};
use kbuild::cache::{slot_path, KeyBuilder, Source};
use kbuild::fuzz;
use kbuild::graph::{beside, discover, join_path, layer_rank, Kind, Manifest, Unit};
use kbuild::hosttest::{collect_deps, wanted};
use kbuild::kcfg::expr::Tri;
use kbuild::kcfg::resolve::{Reason, Resolution};
use kbuild::kcfg::Val;
use kbuild::lint::{check_tree, Script};
use kbuild::portable;
use kbuild::portable::{machines, portable_closure, Report};
use kbuild::sdk::{quote, sdk_script, Places};

fn unit(name: &str, kind: Kind, deps: &[&str]) -> Unit {
    Unit {
        name: name.to_string(),
        kind,
        dir: ".".to_string(),
        root: "src/lib.rs".to_string(),
        deps: deps.iter().map(|s| s.to_string()).collect(),
        layer: "core".to_string(),
        requires: None,
        rustflags: vec![],
        host_tests: false,
        target: None,
        manifest: "kmod.toml".to_string(),
    }
}

fn kernel() -> Build {
    Build {
        root: "/tree".to_string(),
        sysroot: "/rust".to_string(),
        target: Target::Spec("/tree/targets/t.json".to_string()),
        out: "/tree/build/t/out".to_string(),
        gen_dir: "/tree/build/t/gen".to_string(),
        cfgs: vec!["CONFIG_SMP".to_string()],
        check_cfgs: vec![],
        opt_level: "2".to_string(),
        link_script: None,
        deny_warnings: false,
        bitcode: false,
    }
}

#[test]
fn the_kernel_is_built_without_its_modules_and_loaders() {
    let mut loader = unit("kinboot", Kind::Bin, &["proto"]);
    loader.target = Some("x86_64-unknown-uefi".to_string());
    let units = vec![
        unit("compiler_builtins", Kind::Lib, &[]),
        unit("proto", Kind::Lib, &[]),
        loader,
        unit("hello", Kind::Module, &["proto"]),
        unit("kernel", Kind::Bin, &["proto"]),
    ];
    let s = steps(&units).unwrap();
    assert_eq!(s.builtins, 0);
    assert_eq!(s.kernel, [1, 4]);
    assert_eq!(s.image, Some(4));
    assert_eq!(s.foreign, [2]);
    assert_eq!(linked(s.image), Ok(4));
    assert_eq!(module_units(&units), [3]);
    let names: Vec<&str> = foreign_units(&units[2], &units).iter().map(|u| u.name.as_str()).collect();
    assert_eq!(names, ["proto", "kinboot"]);
    assert_eq!(steps(&vec![]).unwrap_err(), "no units are enabled in this configuration");
    let e = steps(&vec![unit("proto", Kind::Lib, &[])]).unwrap_err();
    assert_eq!(e, "no compiler_builtins unit in this configuration");
    assert_eq!(linked(None).unwrap_err(), "no unit of kind `bin` was built; nothing to boot");
}

#[test]
fn the_configuration_decides_target_level_and_script() {
    let mut r = Resolution::new();
    assert_eq!(target_name(&r).unwrap_err(), "configuration does not select a target (TARGET is empty)");
    assert_eq!(opt_level(&r), "2");
    assert_eq!(link_script(&r, "/tree"), None);
    r.set("TARGET", Val::Str("t".to_string()), Reason::Unset);
    r.set("DEBUG_BUILD", Val::Tri(Tri::Y), Reason::Unset);
    r.set("LINKER_SCRIPT", Val::Str("arch/link.ld".to_string()), Reason::Unset);
    assert_eq!(target_name(&r).unwrap(), "t");
    assert_eq!(opt_level(&r), "1");
    assert_eq!(link_script(&r, "/tree").unwrap(), "/tree/arch/link.ld");
    r.set("OPTIMIZE_FOR_SIZE", Val::Tri(Tri::Y), Reason::Unset);
    assert_eq!(opt_level(&r), "z");
}

#[test]
fn loaders_and_modules_have_builds_of_their_own() {
    let b = loader_build("/tree", "/rust", "/tree/build/t", "loader/link.ld");
    assert_eq!(b.out, "/tree/build/t/kinboot-bios");
    assert_eq!(b.link_script.as_deref(), Some("/tree/boot/kinboot-bios/loader/link.ld"));
    assert!(b.cfgs.is_empty() && b.deny_warnings && b.opt_level == "s");
    assert_eq!(loader_unit("/tree").deps.len(), 4);
    assert_eq!(chaintest_unit("/tree").root, "loader/chaintest.rs");
    let f = foreign_build(&kernel(), "x86_64-unknown-uefi");
    assert_eq!(f.out, "/tree/build/t/x86_64-unknown-uefi");
    assert_eq!(f.cfgs, ["CONFIG_SMP"]);
    assert_eq!(link_args("l.a", "l.o").join(" "), "-flavor gnu -r --whole-archive l.a -o l.o");
    assert_eq!(stamp_args("l.identity", "l.o", "l.kmod")[3], "--add-section=.kintane.identity=l.identity");
    assert_eq!(module_line("m.kmod", 9, &vec![]), "  module  m.kmod (9 bytes)");
    let extra = vec![("A".to_string(), "y".to_string()), ("B".to_string(), "n".to_string())];
    assert_eq!(module_line("m.kmod", 9, &extra), "  module  m.kmod (9 bytes, built for A=y B=n)");
    assert_eq!(embed_var("user-init"), "KINTANE_USER_USER_INIT");
}

#[test]
fn arguments_depend_on_the_unit_and_its_build() {
    let u = unit("my-lib", Kind::Lib, &[]);
    let a = kernel().unit_args(&u, &vec![], false).unwrap();
    assert!(a.windows(2).any(|w| w[0] == "--crate-name" && w[1] == "my_lib"), "{a:?}");
    assert!(a.windows(2).any(|w| w[0] == "--target" && w[1] == "/tree/targets/t.json"));
    assert!(a.windows(2).any(|w| w[0] == "--cfg" && w[1] == "CONFIG_SMP"));
    assert_eq!(a.last().unwrap(), "./src/lib.rs");
}

#[test]
fn the_sdk_script_names_no_path_of_the_tree() {
    assert_eq!(quote("a\"b$c`d\\e"), "\"a\\\"b\\$c\\`d\\\\e\"");
    let p = Places {
        out: "/tree/build/t/modules/kernel/out".to_string(),
        spec_path: "/tree/targets/t.json".to_string(),
        spec_file: "t.json".to_string(),
        sysroot: "/rust".to_string(),
        root: "/tree".to_string(),
    };
    let t = template_unit();
    let mut args: Vec<String> = ["--crate-name", "_NAME_", "-L", "/tree/build/t/modules/kernel/out", "--target"]
        .iter()
        .map(|s| s.to_string())
        .collect();
    args.push("/tree/targets/t.json".to_string());
    args.push("--remap-path-prefix".to_string());
    args.push("/rust=/r".to_string());
    args.push(t.root_path());
    let s = sdk_script(&args, &p, "1.98", "abc").to_string();
    assert!(s.starts_with("#!/bin/sh\n"));
    assert!(s.contains("\"commit-hash: abc\"*) ;;\n  *) echo \"this SDK needs rustc 1.98 (abc); $RUSTC is not it\""), "{s}");
    let want = "  --crate-name \"$CRATE\" \\\n  \"-L\" \\\n  \"$SDK/lib\" \\\n  \"--target\" \\\n  \"$SDK/t.json\" \\\n  \"--remap-path-prefix\" \\\n  \"$SYSROOT=/r\" \\\n  \"$SRC\" \\\n  -o";
    assert!(s.contains(want), "{s}");
    assert!(!s.contains("/tree"));
}

#[test]
fn dependencies_are_collected_before_what_needs_them() {
    let units = vec![
        unit("hal", Kind::Lib, &[]),
        unit("mm", Kind::Lib, &["hal"]),
        unit("vfs", Kind::Lib, &["mm", "hal"]),
    ];
    let mut out: Vec<&Unit> = Vec::new();
    collect_deps(&units[2], &units, &mut out);
    let names: Vec<&str> = out.iter().map(|u| u.name.as_str()).collect();
    assert_eq!(names, ["hal", "mm", "vfs"]);
    let mut tested = units.clone();
    tested[1].host_tests = true;
    assert_eq!(wanted(&tested, None), Ok(vec![1]));
    assert_eq!(wanted(&tested, Some("m")), Ok(vec![1]));
    assert!(wanted(&tested, Some("nope")).is_err());
}

#[test]
fn the_portable_units_are_those_tested_on_the_host_and_what_they_need() {
    let mut units = vec![
        unit("hal", Kind::Lib, &[]),
        unit("mm", Kind::Lib, &["hal"]),
        unit("arch", Kind::Lib, &["hal"]),
    ];
    units[1].host_tests = true;
    let names: Vec<String> = portable_closure(units).into_iter().map(|u| u.name).collect();
    assert_eq!(names, ["hal", "mm"]);
    assert_eq!(machines().len(), 3);
    let mut r = Report::new();
    assert!(r.blocked(&unit("mm", Kind::Lib, &["hal"])).is_none());
    r.broken.push(("hal".to_string(), "why".to_string()));
    assert!(r.blocked(&unit("mm", Kind::Lib, &["hal"])).unwrap().contains("hal"));
}

#[test]
fn images_are_packaged_where_their_format_has_a_place() {
    assert_eq!(packaging("efi-esp", &vec!["kinboot_efi".to_string()]), Ok(Packaging::EfiEsp));
    assert_eq!(packaging("", &vec![]), Ok(Packaging::Elf));
    assert_eq!(packaging("multiboot-elf32", &vec![]), Ok(Packaging::MultibootElf32));
    assert_eq!(packaging("zip", &vec![]).unwrap_err(), "unknown image format `zip`");
    let e = packaging("elf", &vec!["kinboot_efi".to_string()]).unwrap_err();
    assert_eq!(e, "`kinboot_efi` was built, but the elf image format has no place for it");
    let images = vec![("kinboot_efi".to_string(), b"MZ".to_vec())];
    assert!(check_loader(&images).is_ok());
    assert!(check_loader(&vec![]).is_err());
    let files = esp_files(&images, b"kernel", "entries").unwrap();
    assert!(files.iter().any(|f| f.path == "EFI/BOOT/BOOTX64.EFI" && f.data == b"MZ"));
    assert!(esp_files(&vec![("other".to_string(), vec![])], b"kernel", "entries").is_err());
}

#[test]
fn source_trees_hash_the_same_in_any_order() {
    let source = |p: &str, d: &[u8]| Source { path: p.to_string(), data: d.to_vec() };
    let key = |files: Vec<Source>| {
        let mut k = KeyBuilder::new("tc");
        k.source_tree(&files);
        k.finish()
    };
    let a = key(vec![source("a.rs", b"1"), source("b.rs", b"2")]);
    let b = key(vec![source("b.rs", b"2"), source("a.rs", b"1")]);
    assert_eq!(a, b);
    assert_ne!(a, key(vec![source("a.rs", b"2"), source("b.rs", b"1")]));
    assert_eq!(a.len(), 64);
    assert!(slot_path(&a, "x.rlib").ends_with("x.rlib"));
    assert_eq!(slot_path("abcd", "x.rlib"), "ab/abcd/x.rlib");
    assert_eq!(slot_path("\u{e9}12", "x.rlib"), "\u{e9}/\u{e9}12/x.rlib");
}

#[test]
fn paths_join_and_layers_rank() {
    assert_eq!(join_path("a", "b/c"), "a/b/c");
    assert_eq!(join_path("a/", "b"), "a/b");
    assert_eq!(join_path("a", "/b"), "/b");
    assert_eq!(beside("out/kernel.elf", "x"), "out/x");
    assert_eq!(beside("kernel.elf", "x"), "x");
    assert!(layer_rank("hal").unwrap() < layer_rank("core").unwrap());
    assert!(layer_rank("nowhere").is_none());
}

#[test]
fn a_program_is_embedded_and_not_linked() {
    let init = unit("init-one", Kind::User, &[]);
    let b = kernel();
    assert_eq!(b.filename(&init), "init_one.user.elf");
    assert_eq!(b.filename(&unit("k", Kind::Bin, &[])), "k.elf");
    assert_eq!(b.filename(&unit("m-x", Kind::Module, &[])), "libm_x.a");
    let made = Built::of(&init, "/o/init_one.user.elf".to_string(), "key".to_string());
    assert_eq!(made.embed.as_deref(), Some("KINTANE_USER_INIT_ONE"));
    let lib = Built::of(&unit("hal", Kind::Lib, &[]), "/o/libhal.rlib".to_string(), "key".to_string());
    assert!(lib.embed.is_none());
    let user = unit("top", Kind::Lib, &["init-one", "hal"]);
    let a = b.unit_args(&user, &vec![("hal".to_string(), lib), ("init-one".to_string(), made)], true).unwrap();
    let has = |flag: &str, value: &str| a.windows(2).any(|w| w[0] == flag && w[1] == value);
    assert!(has("--env-set", "KINTANE_USER_INIT_ONE=/o/init_one.user.elf"), "{a:?}");
    assert!(has("--extern", "hal=/o/libhal.rlib"), "{a:?}");
    assert!(has("--extern", "kconfig=/tree/build/t/out/libkconfig.rlib"), "{a:?}");
    let e = b.unit_args(&unit("k", Kind::Bin, &[]), &vec![], false).unwrap_err();
    assert_eq!(e, "this configuration selects no linker script (LINKER_SCRIPT is empty)");
}

fn manifest(name: &str, dir: &str) -> Manifest {
    Manifest {
        path: format!("{dir}/kmod.toml"),
        dir: dir.to_string(),
        name: Some(name.to_string()),
        kind: None,
        root: None,
        layer: Some("core".to_string()),
        requires: None,
        target: None,
        deps: vec![],
        rustflags: vec![],
        host_tests: None,
    }
}

#[test]
fn a_tree_is_listed_by_name_and_then_by_directory() {
    let found = discover(&vec![manifest("b", "x-y"), manifest("b", "x/z"), manifest("a", "q")]).unwrap();
    let places: Vec<(&str, &str)> = found.iter().map(|u| (u.name.as_str(), u.dir.as_str())).collect();
    assert_eq!(places, [("a", "q"), ("b", "x/z"), ("b", "x-y")], "a directory comes before its longer neighbour");
    let e = discover(&vec![manifest("a", "q"), Manifest { name: None, ..manifest("b", "r") }]).unwrap_err();
    assert_eq!(e, "r/kmod.toml: missing `unit.name`");
}

#[test]
fn a_tree_is_checked_in_the_order_of_its_paths() {
    let bad = "fn f() {\n    #[cfg(A)]\n    g();\n}\n";
    let file = |path: &str, text: &str| Script { path: path.to_string(), text: text.to_string() };
    let v = check_tree(&vec![file("b.rs", bad), file("a-b/c.rs", bad), file("a/c.rs", bad), file("ok.rs", "fn f() {}\n")]);
    let places: Vec<(&str, usize)> = v.iter().map(|v| (v.file.as_str(), v.line)).collect();
    assert_eq!(places, [("a/c.rs", 2), ("a-b/c.rs", 2), ("b.rs", 2)]);
}

#[test]
fn what_is_needed_comes_before_what_needs_it() {
    let mut units = vec![
        unit("hal", Kind::Lib, &[]),
        unit("mm", Kind::Lib, &["hal"]),
        unit("arch", Kind::Lib, &["hal"]),
        unit("vfs", Kind::Lib, &["mm"]),
    ];
    assert_eq!(portable::compiled(&units, "t").unwrap_err(), "no host-testable unit is enabled for t");
    units[3].host_tests = true;
    let names: Vec<&str> = portable::compiled(&units, "t").unwrap().iter().map(|u| u.name.as_str()).collect();
    assert_eq!(names, ["hal", "mm", "vfs"]);
    let b = portable::portable_build("/tree", "/rust", "thumbv7m-none-eabi", &vec![], &vec![]);
    assert_eq!(b.out, "/tree/build/portability/thumbv7m-none-eabi/out");
    assert!(b.deny_warnings && b.opt_level == "1");
    let mut r = Report::new();
    r.record(&units[0], None);
    r.record(&units[1], Some("why".to_string()));
    assert_eq!(r.line(), "  1 of 2 units build");
    assert_eq!(r.broken, [("mm".to_string(), "why".to_string())]);
}

#[test]
fn the_harness_is_a_unit_and_its_corpus_a_directory() {
    let units = vec![unit("hal", Kind::Lib, &[]), unit("fuzz", Kind::Lib, &["hal"])];
    assert_eq!(fuzz::harness(&units), Ok(1));
    assert_eq!(fuzz::harness(&vec![]).unwrap_err(), "no `fuzz` unit in this configuration");
    let mut run = fuzz::Run { target: None, seed: None, iterations: 1, smoke: false, file: None, corpus: None };
    assert_eq!(fuzz::corpus_dir(&run, "/tree"), "/tree/lib/fuzz/corpus");
    run.corpus = Some("c".to_string());
    assert_eq!(fuzz::corpus_dir(&run, "/tree"), "c");
    assert!(fuzz::verdict(0).is_ok());
    assert_eq!(fuzz::verdict(2).unwrap_err(), "2 target(s) found a failure");
}

#[test]
fn artifacts_stand_in_the_order_of_their_names() {
    let made = |path: &str| Built { path: path.to_string(), key: String::new(), embed: None };
    let names = ["mm", "core", "arch", "kconfig", "mm_paged", "compiler_builtins"];
    let mut forward = Vec::new();
    let mut backward = Vec::new();
    for n in names {
        put(&mut forward, n, made(n));
    }
    for n in names.iter().rev() {
        put(&mut backward, n, made("old"));
        put(&mut backward, n, made(n));
    }
    let mut sorted = names;
    sorted.sort();
    for all in [&forward, &backward] {
        assert_eq!(all.iter().map(|(n, _)| n.as_str()).collect::<Vec<_>>(), sorted);
        assert_eq!(all.iter().map(|(_, b)| b.path.as_str()).collect::<Vec<_>>(), sorted);
    }
    assert_eq!(find_built(&forward, "mm").unwrap().path, "mm");
    assert!(find_built(&forward, "m").is_none());
}

#[test]
fn dependencies_are_collected_from_units_in_any_order() {
    let all = vec![
        unit("top", Kind::Lib, &["mid", "low"]),
        unit("low", Kind::Lib, &[]),
        unit("mid", Kind::Lib, &["low", "absent"]),
    ];
    let mut out = Vec::new();
    collect_deps(&all[0], &all, &mut out);
    assert_eq!(out.iter().map(|u| u.name.as_str()).collect::<Vec<_>>(), ["low", "mid", "top"]);
    collect_deps(&all[2], &all, &mut out);
    assert_eq!(out.len(), 3, "nothing is collected twice");
}
