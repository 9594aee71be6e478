//! The builds beside the kernel's: the BIOS loader's, a module's, and that of an image for a target
//! of its own.

use vstd::prelude::*;
use vstd::string::*;

use crate::bootcfg;
use crate::build::{Build, Target};
use crate::graph;
use crate::graph::{Kind, Unit};
use crate::kcfg::resolve::Resolution;
use crate::modules;
use crate::text;

verus! {

/// Where the BIOS loader's sources are, below the root.
pub const LOADER_DIR: &'static str = "boot/kinboot-bios";

/// The units that the BIOS loader links, each built against the ones before it.
pub const LOADER_UNITS: [&'static str; 5] = [
    "compiler_builtins",
    "boot_protocol",
    "cmdline",
    "kinboot-bios",
    "kinboot-menu",
];

/// Whether a target is the one that a file specifies.
pub open spec fn specified(t: Target, path: Seq<char>) -> bool {
    t matches Target::Spec(p) && p@ == path
}

/// The BIOS loader's build. The loader reads no kernel configuration, so it gets none: a `cfg` that
/// it could see would be a way for kernel settings to change the boot sector. It is built for size,
/// and `script` links it.
pub open spec fn is_loader_build(
    b: Build,
    root: Seq<char>,
    sysroot: Seq<char>,
    target_dir: Seq<char>,
    script: Seq<char>,
) -> bool {
    let out = graph::below(target_dir, "kinboot-bios"@);
    &&& b.root@ == root
    &&& b.sysroot@ == sysroot
    &&& specified(b.target, graph::below(root, "targets/i686-kinboot.json"@))
    &&& b.out@ == out
    &&& b.gen_dir@ == graph::below(out, "gen"@)
    &&& b.cfgs@.len() == 0
    &&& b.check_cfgs@.len() == 0
    &&& b.opt_level@ == "s"@
    &&& text::opt(b.link_script) == Some(graph::below(graph::below(root, LOADER_DIR@), script))
    &&& b.deny_warnings
    &&& !b.bitcode
}

/// The BIOS loader's build. `script` is `loader/link.ld` for the loader and `loader/chaintest.ld`
/// for the chainload test record.
pub fn loader_build(root: &str, sysroot: &str, target_dir: &str, script: &str) -> (r: Build)
    ensures
        is_loader_build(r, root@, sysroot@, target_dir@, script@),
{
    let out = graph::join_path(target_dir, "kinboot-bios");
    let gen_dir = graph::join_path(out.as_str(), "gen");
    Build {
        root: root.to_owned(),
        sysroot: sysroot.to_owned(),
        target: Target::Spec(graph::join_path(root, "targets/i686-kinboot.json")),
        out,
        gen_dir,
        cfgs: Vec::new(),
        check_cfgs: Vec::new(),
        opt_level: "s".to_owned(),
        link_script: Some(graph::join_path(graph::join_path(root, LOADER_DIR).as_str(), script)),
        deny_warnings: true,
        bitcode: false,
    }
}

/// A binary of the BIOS loader's sources.
pub open spec fn loader_node(root: Seq<char>, name: Seq<char>, main: Seq<char>, deps: Seq<Seq<char>>) -> graph::Node {
    let dir = graph::below(root, LOADER_DIR@);
    graph::Node {
        name,
        kind: Kind::Bin,
        dir,
        root: main,
        deps,
        layer: "kernel"@,
        requires: None,
        rustflags: seq![],
        host_tests: false,
        target: None,
        manifest: graph::below(dir, "kmod.toml"@),
    }
}

fn loader_binary(root: &str, name: &str, main: &str, deps: Vec<String>) -> (r: Unit)
    ensures
        r@ == loader_node(root@, name@, main@, text::views(deps@)),
{
    let dir = graph::join_path(root, LOADER_DIR);
    let manifest = graph::join_path(dir.as_str(), "kmod.toml");
    let r = Unit {
        name: name.to_owned(),
        kind: Kind::Bin,
        dir,
        root: main.to_owned(),
        deps,
        layer: "kernel".to_owned(),
        requires: None,
        rustflags: Vec::new(),
        host_tests: false,
        target: None,
        manifest,
    };
    assert(r@.rustflags =~= seq![]);
    r
}

/// The BIOS loader itself.
pub fn loader_unit(root: &str) -> (r: Unit)
    ensures
        r@ == loader_node(
            root@,
            "kinboot-bios-loader"@,
            "loader/main.rs"@,
            seq!["kinboot-bios"@, "kinboot-menu"@, "cmdline"@, "boot_protocol"@],
        ),
{
    let mut deps: Vec<String> = Vec::new();
    assert(text::views(deps@) =~= Seq::<Seq<char>>::empty());
    text::push_text(&mut deps, "kinboot-bios");
    text::push_text(&mut deps, "kinboot-menu");
    text::push_text(&mut deps, "cmdline");
    text::push_text(&mut deps, "boot_protocol");
    assert(text::views(deps@) == seq!["kinboot-bios"@, "kinboot-menu"@, "cmdline"@, "boot_protocol"@]);
    loader_binary(root, "kinboot-bios-loader", "loader/main.rs", deps)
}

/// The chainload test record.
pub fn chaintest_unit(root: &str) -> (r: Unit)
    ensures
        r@ == loader_node(root@, "kinboot-bios-chaintest"@, "loader/chaintest.rs"@, seq![]),
{
    let deps: Vec<String> = Vec::new();
    assert(text::views(deps@) =~= seq![]);
    loader_binary(root, "kinboot-bios-chaintest", "loader/chaintest.rs", deps)
}

/// Why a unit that the loader needs is missed.
pub fn no_unit(name: &str) -> (r: String)
    ensures
        r@ == "no `"@ + name@ + "` unit in the tree"@,
{
    text::three("no `", name, "` unit in the tree")
}

/// The build of an image for a target of its own: the kernel's configuration, compiled for another
/// target in a directory of its own, and no linker script.
pub open spec fn is_foreign_build(b: Build, kernel: Build, triple: Seq<char>) -> bool {
    &&& b.root@ == kernel.root@
    &&& b.sysroot@ == kernel.sysroot@
    &&& b.target matches Target::Builtin(t) && t@ == triple
    &&& b.out@ == graph::neighbour(kernel.out@, triple)
    &&& b.gen_dir@ == kernel.gen_dir@
    &&& text::views(b.cfgs@) == text::views(kernel.cfgs@)
    &&& text::views(b.check_cfgs@) == text::views(kernel.check_cfgs@)
    &&& b.opt_level@ == kernel.opt_level@
    &&& b.link_script is None
    &&& !b.deny_warnings
    &&& !b.bitcode
}

/// The build of an image for a target of its own.
pub fn foreign_build(kernel: &Build, triple: &str) -> (r: Build)
    ensures
        is_foreign_build(r, *kernel, triple@),
{
    Build {
        root: kernel.root.as_str().to_owned(),
        sysroot: kernel.sysroot.as_str().to_owned(),
        target: Target::Builtin(triple.to_owned()),
        out: graph::beside(kernel.out.as_str(), triple),
        gen_dir: kernel.gen_dir.as_str().to_owned(),
        cfgs: text::copy_texts(&kernel.cfgs),
        check_cfgs: text::copy_texts(&kernel.check_cfgs),
        opt_level: kernel.opt_level.as_str().to_owned(),
        link_script: None,
        deny_warnings: false,
        bitcode: false,
    }
}

/// The build of a module: its own configuration, everything compiled with bitcode, in a directory of
/// its own.
pub open spec fn is_module_build(
    b: Build,
    kernel: Build,
    target_json: Seq<char>,
    dir: Seq<char>,
    cfgs: Seq<Seq<char>>,
    check_cfgs: Seq<Seq<char>>,
    debug: bool,
) -> bool {
    &&& b.root@ == kernel.root@
    &&& b.sysroot@ == kernel.sysroot@
    &&& specified(b.target, target_json)
    &&& b.out@ == graph::below(dir, "out"@)
    &&& b.gen_dir@ == graph::below(dir, "gen"@)
    &&& text::views(b.cfgs@) == cfgs
    &&& text::views(b.check_cfgs@) == check_cfgs
    &&& b.opt_level@ == if debug {
        "1"@
    } else {
        "2"@
    }
    &&& b.link_script is None
    &&& !b.deny_warnings
    &&& b.bitcode
}

/// The build of a module.
pub fn module_build(
    kernel: &Build,
    res: &Resolution,
    target_json: &str,
    dir: &str,
    cfgs: &Vec<String>,
    check_cfgs: &Vec<String>,
) -> (r: Build)
    ensures
        is_module_build(
            r,
            *kernel,
            target_json@,
            dir@,
            text::views(cfgs@),
            text::views(check_cfgs@),
            bootcfg::on(res@, "DEBUG_BUILD"@),
        ),
{
    Build {
        root: kernel.root.as_str().to_owned(),
        sysroot: kernel.sysroot.as_str().to_owned(),
        target: Target::Spec(target_json.to_owned()),
        out: graph::join_path(dir, "out"),
        gen_dir: graph::join_path(dir, "gen"),
        cfgs: text::copy_texts(cfgs),
        check_cfgs: text::copy_texts(check_cfgs),
        opt_level: if res.is_on("DEBUG_BUILD") {
            "1".to_owned()
        } else {
            "2".to_owned()
        },
        link_script: None,
        deny_warnings: false,
        bitcode: true,
    }
}

/// What stands for an out-of-tree module in the SDK's script, which names and places it by its own
/// arguments.
pub open spec fn template() -> graph::Node {
    graph::Node {
        name: "@NAME@"@,
        kind: Kind::Module,
        dir: "@DIR@"@,
        root: "@FILE@"@,
        deps: seq!["module"@],
        layer: "subsystem"@,
        requires: None,
        rustflags: seq![],
        host_tests: false,
        target: None,
        manifest: "@DIR@/kmod.toml"@,
    }
}

/// What stands for an out-of-tree module in the SDK's script.
pub fn template_unit() -> (r: Unit)
    ensures
        r@ == template(),
{
    let mut deps: Vec<String> = Vec::new();
    assert(text::views(deps@) =~= Seq::<Seq<char>>::empty());
    text::push_text(&mut deps, "module");
    let r = Unit {
        name: "@NAME@".to_owned(),
        kind: Kind::Module,
        dir: "@DIR@".to_owned(),
        root: "@FILE@".to_owned(),
        deps,
        layer: "subsystem".to_owned(),
        requires: None,
        rustflags: Vec::new(),
        host_tests: false,
        target: None,
        manifest: "@DIR@/kmod.toml".to_owned(),
    };
    assert(r@.rustflags =~= seq![]);
    r
}

/// The linker's arguments for a module: an archive becomes one relocatable object.
pub fn link_args(archive: &str, object: &str) -> (r: Vec<String>)
    ensures
        text::views(r@) == seq!["-flavor"@, "gnu"@, "-r"@, "--whole-archive"@, archive@, "-o"@, object@],
{
    let mut v: Vec<String> = Vec::new();
    assert(text::views(v@) =~= Seq::<Seq<char>>::empty());
    text::push_text(&mut v, "-flavor");
    text::push_text(&mut v, "gnu");
    text::push_text(&mut v, "-r");
    text::push_text(&mut v, "--whole-archive");
    text::push_text(&mut v, archive);
    text::push_text(&mut v, "-o");
    text::push_text(&mut v, object);
    v
}

/// The arguments that stamp a module's object with its identity, and take out what is not shipped
/// in it.
pub fn stamp_args(section: &str, object: &str, dest: &str) -> (r: Vec<String>)
    ensures
        text::views(r@) == seq![
            "--strip-debug"@,
            "--remove-section=.llvmbc"@,
            "--remove-section=.llvmcmd"@,
            "--add-section=.kintane.identity="@ + section@,
            "--set-section-flags=.kintane.identity=readonly"@,
            object@,
            dest@,
        ],
{
    let mut named = "--add-section=.kintane.identity=".to_owned();
    named.append(section);
    let mut v: Vec<String> = Vec::new();
    assert(text::views(v@) =~= Seq::<Seq<char>>::empty());
    text::push_text(&mut v, "--strip-debug");
    text::push_text(&mut v, "--remove-section=.llvmbc");
    text::push_text(&mut v, "--remove-section=.llvmcmd");
    text::push_text(&mut v, named.as_str());
    text::push_text(&mut v, "--set-section-flags=.kintane.identity=readonly");
    text::push_text(&mut v, object);
    text::push_text(&mut v, dest);
    v
}

/// The places of the modules among the first `n` planned units.
pub open spec fn module_places(units: Seq<graph::Node>, n: nat) -> Seq<int>
    decreases n,
{
    if n == 0 {
        seq![]
    } else if units[n - 1].kind == Kind::Module {
        module_places(units, (n - 1) as nat).push(n - 1)
    } else {
        module_places(units, (n - 1) as nat)
    }
}

/// The places of the modules among the planned units.
pub fn module_units(units: &Vec<Unit>) -> (r: Vec<usize>)
    ensures
        r@.map_values(|p: usize| p as int) == module_places(graph::nodes(units@), units@.len()),
{
    let ghost all = graph::nodes(units@);
    let mut out: Vec<usize> = Vec::new();
    let mut i: usize = 0;
    assert(out@.map_values(|p: usize| p as int) =~= seq![]);
    while i < units.len()
        invariant
            i <= units@.len(),
            all == graph::nodes(units@),
            out@.map_values(|p: usize| p as int) == module_places(all, i as nat),
        decreases units@.len() - i,
    {
        assert(all[i as int] == units@[i as int]@);
        if units[i].kind == Kind::Module {
            let ghost before = out@.map_values(|p: usize| p as int);
            out.push(i);
            assert(out@.map_values(|p: usize| p as int) =~= before.push(i as int));
        }
        i += 1;
    }
    out
}

/// What is said of a module that was built, and of the settings it was built for where they are not
/// the kernel's.
pub open spec fn module_said(path: Seq<char>, size: int, extra: Seq<(Seq<char>, Seq<char>)>) -> Seq<char> {
    "  module  "@ + path + " ("@ + text::decimal(size) + " bytes"@ + (if extra.len() == 0 {
        seq![]
    } else {
        ", built for "@ + text::joined(
            extra.map_values(|s: (Seq<char>, Seq<char>)| s.0 + "="@ + s.1),
            " "@,
        )
    }) + ")"@
}

/// What is said of a module that was built.
pub fn module_line(path: &str, size: u64, extra: &Vec<(String, String)>) -> (r: String)
    ensures
        r@ == module_said(path@, size as int, modules::settings_of(extra@)),
{
    let ghost all = modules::settings_of(extra@);
    let ghost shown = all.map_values(|s: (Seq<char>, Seq<char>)| s.0 + "="@ + s.1);
    let mut v: Vec<String> = Vec::new();
    let mut i: usize = 0;
    while i < extra.len()
        invariant
            i <= extra@.len(),
            all == modules::settings_of(extra@),
            shown == all.map_values(|s: (Seq<char>, Seq<char>)| s.0 + "="@ + s.1),
            text::views(v@) =~= shown.subrange(0, i as int),
        decreases extra@.len() - i,
    {
        assert(all[i as int] == (extra@[i as int].0@, extra@[i as int].1@));
        let ghost before = text::views(v@);
        v.push(text::three(extra[i].0.as_str(), "=", extra[i].1.as_str()));
        assert(text::views(v@) =~= before.push(shown[i as int]));
        assert(before.push(shown[i as int]) =~= shown.subrange(0, i + 1));
        i += 1;
    }
    assert(text::views(v@) =~= shown);
    let mut r = text::three("  module  ", path, " (");
    r.append(text::int_text(size as i128).as_str());
    r.append(" bytes");
    let mut built_for = String::new();
    assert(built_for@ =~= seq![]);
    if extra.len() > 0 {
        built_for = ", built for ".to_owned();
        built_for.append(text::join(&v, " ").as_str());
    }
    r.append(built_for.as_str());
    r.append(")");
    r
}

} // verus!
