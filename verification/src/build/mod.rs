//! What the compiler is told: one process per unit, with every dependency named.
//!
//! Nothing is visible to a crate that was not declared, and nothing is inherited from the
//! environment: reproducibility depends on it.

use vstd::prelude::*;
use vstd::string::*;

use crate::cache;
use crate::cache::{KeyBuilder, Source};
use crate::digest;
use crate::graph;
use crate::graph::{Kind, Unit};
use crate::text;

pub mod derived;
pub mod keys;
pub mod outputs;
pub mod package;
pub mod steps;

verus! {

/// What `--target` names.
pub enum Target {
    /// One of our specifications. Its contents are part of every cache key.
    Spec(String),
    /// A target built into the pinned compiler, named by triple. Its definition is part of the
    /// toolchain, so the toolchain's identity already covers it.
    Builtin(String),
}

/// The name of a target, as it is given to the compiler.
pub open spec fn target_arg(t: Target) -> Seq<char> {
    match t {
        Target::Spec(p) => p@,
        Target::Builtin(n) => n@,
    }
}

/// Whether a text ends in `-uefi`.
pub open spec fn for_uefi(name: Seq<char>) -> bool {
    crate::bytes::ends(name, "-uefi"@)
}

/// The extension of a linked image: UEFI applications are PE/COFF, and firmware finds them by the
/// `.efi` name.
pub open spec fn image_extension_of(t: Target) -> Seq<char> {
    match t {
        Target::Builtin(n) => if for_uefi(n@) {
            "efi"@
        } else {
            "elf"@
        },
        Target::Spec(_) => "elf"@,
    }
}

fn ends_in(s: &str, end: &str) -> (r: bool)
    ensures
        r == crate::bytes::ends(s@, end@),
{
    let a = text::chars(s);
    let b = text::chars(end);
    if b.len() > a.len() {
        return false;
    }
    text::same_chars(text::part(a.as_slice(), a.len() - b.len(), a.len()).as_slice(), b.as_slice())
}

impl Target {
    pub fn arg(&self) -> (r: String)
        ensures
            r@ == target_arg(*self),
    {
        match self {
            Target::Spec(p) => p.clone(),
            Target::Builtin(t) => t.clone(),
        }
    }

    /// The extension of a linked image.
    pub fn image_extension(&self) -> (r: &'static str)
        ensures
            r@ == image_extension_of(*self),
    {
        match self {
            Target::Builtin(t) => if ends_in(t.as_str(), "-uefi") {
                "efi"
            } else {
                "elf"
            },
            Target::Spec(_) => "elf",
        }
    }
}

/// Where a built unit's artifact ended up, and the cache key that produced it.
pub struct Built {
    pub path: String,
    pub key: String,
    /// For a program that is embedded: the environment variable its dependents read the linked
    /// image's path from. `None` for everything that is linked.
    pub embed: Option<String>,
}

/// An artifact over mathematical values.
pub ghost struct Artifact {
    pub path: Seq<char>,
    pub key: Seq<char>,
    pub embed: Option<Seq<char>>,
}

impl View for Built {
    type V = Artifact;

    open spec fn view(&self) -> Artifact {
        Artifact { path: self.path@, key: self.key@, embed: text::opt(self.embed) }
    }
}

/// What a list of named artifacts holds.
pub open spec fn artifacts(v: Seq<(String, Built)>) -> Seq<(Seq<char>, Artifact)> {
    v.map_values(|b: (String, Built)| (b.0@, b.1@))
}

/// The artifact called `name`, from `i` on.
pub open spec fn artifact(all: Seq<(Seq<char>, Artifact)>, name: Seq<char>, i: int) -> Option<Artifact>
    decreases all.len() - i,
{
    if i < 0 || i >= all.len() {
        None
    } else if all[i].0 == name {
        Some(all[i].1)
    } else {
        artifact(all, name, i + 1)
    }
}

/// Whether artifacts stand in the order of their names, none of them twice.
pub open spec fn by_name(all: Seq<(Seq<char>, Artifact)>) -> bool {
    forall|i: int, j: int| 0 <= i < j < all.len() ==> text::before((#[trigger] all[i]).0, (#[trigger] all[j]).0)
}

proof fn artifact_found(all: Seq<(Seq<char>, Artifact)>, i: int, k: int)
    requires
        by_name(all),
        0 <= i <= k < all.len(),
    ensures
        artifact(all, all[k].0, i) == Some(all[k].1),
    decreases k - i,
{
    if i < k {
        text::before_is_total(all[i].0, all[k].0);
        artifact_found(all, i + 1, k);
    }
}

proof fn artifact_place(all: Seq<(Seq<char>, Artifact)>, name: Seq<char>, i: int) -> (k: int)
    requires
        0 <= i,
    ensures
        artifact(all, name, i) is Some ==> i <= k < all.len() && all[k].0 == name && artifact(all, name, i) == Some(
            all[k].1,
        ),
        artifact(all, name, i) is None ==> forall|j: int| i <= j < all.len() ==> (#[trigger] all[j]).0 != name,
    decreases all.len() - i,
{
    if i < all.len() && all[i].0 != name {
        artifact_place(all, name, i + 1)
    } else {
        i
    }
}

/// What a name stands for does not depend on the order in which units were built, and neither does
/// the list itself, nor a key that is taken from it: lists that answer every name alike are the
/// same.
pub proof fn artifacts_are_kept_in_one_order(x: Seq<(Seq<char>, Artifact)>, y: Seq<(Seq<char>, Artifact)>)
    requires
        by_name(x),
        by_name(y),
        forall|n: Seq<char>| #[trigger] artifact(x, n, 0) == artifact(y, n, 0),
    ensures
        x == y,
{
    same_from(x, y, 0);
    assert(x =~= y);
}

proof fn same_from(x: Seq<(Seq<char>, Artifact)>, y: Seq<(Seq<char>, Artifact)>, k: int)
    requires
        by_name(x),
        by_name(y),
        forall|n: Seq<char>| #[trigger] artifact(x, n, 0) == artifact(y, n, 0),
        0 <= k <= x.len(),
        k <= y.len(),
        forall|i: int| 0 <= i < k ==> x[i] == y[i],
    ensures
        x.len() == y.len(),
        forall|i: int| 0 <= i < x.len() ==> x[i] == y[i],
    decreases x.len() - k,
{
    if k < x.len() {
        artifact_found(x, 0, k);
        let j = artifact_place(y, x[k].0, 0);
        if j < k {
            text::before_is_total(x[j].0, x[k].0);
        }
        artifact_found(y, 0, k);
        let m = artifact_place(x, y[k].0, 0);
        if m < k {
            text::before_is_total(y[m].0, y[k].0);
        }
        text::before_is_total(x[k].0, y[k].0);
        text::before_is_total(y[k].0, x[k].0);
        assert(x[k].0 == y[k].0);
        same_from(x, y, k + 1);
    } else if k < y.len() {
        artifact_found(y, 0, k);
        let m = artifact_place(x, y[k].0, 0);
        text::before_is_total(y[m].0, y[k].0);
    }
}

proof fn put_answers(was: Seq<(Seq<char>, Artifact)>, new: Seq<(Seq<char>, Artifact)>, i: int, name: Seq<char>, b: Artifact)
    requires
        by_name(was),
        0 <= i <= was.len(),
        forall|k: int| 0 <= k < i ==> text::before((#[trigger] was[k]).0, name),
        i < was.len() ==> !text::before(was[i].0, name),
        new == if i < was.len() && was[i].0 == name {
            was.update(i, (name, b))
        } else {
            was.insert(i, (name, b))
        },
    ensures
        by_name(new),
        forall|n: Seq<char>|
            #[trigger] artifact(new, n, 0) == if n == name {
                Some(b)
            } else {
                artifact(was, n, 0)
            },
{
    let same = i < was.len() && was[i].0 == name;
    assert forall|k: int| i <= k < was.len() && !(same && k == i) implies text::before(
        name,
        (#[trigger] was[k]).0,
    ) by {
        text::before_is_total(was[i].0, name);
        if k > i && !same {
            text::before_is_transitive(name, was[i].0, was[k].0);
        }
    }
    assert forall|p: int, q: int| 0 <= p < q < new.len() implies text::before(
        (#[trigger] new[p]).0,
        (#[trigger] new[q]).0,
    ) by {
        if !same {
            let (a, c) = (
                if p < i {
                    p
                } else {
                    p - 1
                },
                if q < i {
                    q
                } else {
                    q - 1
                },
            );
            if p != i {
                assert(new[p] == was[a]);
            }
            if q != i {
                assert(new[q] == was[c]);
            }
        }
    }
    assert forall|n: Seq<char>|
        #[trigger] artifact(new, n, 0) == if n == name {
            Some(b)
        } else {
            artifact(was, n, 0)
        } by {
        artifact_found(new, 0, i);
        let (j, k) = (artifact_place(was, n, 0), artifact_place(new, n, 0));
        if n != name {
            if artifact(was, n, 0) is Some {
                let at = if same || j < i {
                    j
                } else {
                    j + 1
                };
                assert(new[at] == was[j]);
                artifact_found(new, 0, at);
            } else if artifact(new, n, 0) is Some {
                let from = if same || k < i {
                    k
                } else {
                    k - 1
                };
                assert(new[k] == was[from]);
            }
        }
    }
}

/// Keep an artifact under its name, in place of one that was kept under it before. Artifacts stay
/// in the order of their names.
pub fn put(all: &mut Vec<(String, Built)>, name: &str, b: Built)
    requires
        by_name(artifacts(old(all)@)),
    ensures
        by_name(artifacts(final(all)@)),
        forall|n: Seq<char>|
            #[trigger] artifact(artifacts(final(all)@), n, 0) == if n == name@ {
                Some(b@)
            } else {
                artifact(artifacts(old(all)@), n, 0)
            },
{
    let ghost before = artifacts(all@);
    let ghost new = b@;
    let key = text::chars(name);
    let mut i: usize = 0;
    while i < all.len() && text::comes_before(text::chars(all[i].0.as_str()).as_slice(), key.as_slice())
        invariant
            i <= all@.len(),
            key@ == name@,
            before == artifacts(all@),
            forall|k: int| 0 <= k < i ==> text::before((#[trigger] before[k]).0, name@),
        decreases all@.len() - i,
    {
        assert(before[i as int].0 == all@[i as int].0@);
        i += 1;
    }
    if i < all.len() {
        assert(before[i as int].0 == all@[i as int].0@);
    }
    if i < all.len() && text::same(all[i].0.as_str(), name) {
        all.set(i, (name.to_owned(), b));
        assert(artifacts(all@) =~= before.update(i as int, (name@, new)));
    } else {
        all.insert(i, (name.to_owned(), b));
        assert(artifacts(all@) =~= before.insert(i as int, (name@, new)));
    }
    proof {
        put_answers(before, artifacts(all@), i as int, name@, new);
    }
}

/// What was kept under a name.
pub fn find_built<'a>(all: &'a Vec<(String, Built)>, name: &str) -> (r: Option<&'a Built>)
    ensures
        match r {
            Some(b) => artifact(artifacts(all@), name@, 0) == Some(b@),
            None => artifact(artifacts(all@), name@, 0) == None::<Artifact>,
        },
{
    let mut i: usize = 0;
    while i < all.len()
        invariant
            i <= all@.len(),
            artifact(artifacts(all@), name@, 0) == artifact(artifacts(all@), name@, i as int),
        decreases all@.len() - i,
    {
        assert(artifacts(all@)[i as int] == (all@[i as int].0@, all@[i as int].1@));
        if text::same(all[i].0.as_str(), name) {
            return Some(&all[i].1);
        }
        i += 1;
    }
    None
}

/// A crate's name: a unit's, with `_` for `-`.
pub open spec fn crate_name(unit: Seq<char>) -> Seq<char> {
    text::exchanged(unit, '-', '_')
}

/// The variable that a dependent reads a program's path from: `KINTANE_USER_INIT` for the unit
/// `init`.
pub fn embed_var(unit: &str) -> (r: String)
    ensures
        r@ == "KINTANE_USER_"@ + text::raised(crate_name(unit@)),
{
    let mut r = "KINTANE_USER_".to_owned();
    r.append(text::to_upper(text::exchange(unit, '-', '_').as_str()).as_str());
    r
}

impl Built {
    /// The artifact of a unit. A program is embedded in what depends on it, under its own variable;
    /// everything else is linked.
    pub fn of(unit: &Unit, path: String, key: String) -> (r: Built)
        ensures
            r@ == (Artifact {
                path: path@,
                key: key@,
                embed: if unit.kind == Kind::User {
                    Some("KINTANE_USER_"@ + text::raised(crate_name(unit.name@)))
                } else {
                    None
                },
            }),
    {
        let embed = if unit.kind == Kind::User {
            Some(embed_var(unit.name.as_str()))
        } else {
            None
        };
        Built { path, key, embed }
    }
}

/// What is the same for every unit of a build.
pub struct Build {
    pub root: String,
    pub sysroot: String,
    pub target: Target,
    pub out: String,
    pub gen_dir: String,
    pub cfgs: Vec<String>,
    pub check_cfgs: Vec<String>,
    pub opt_level: String,
    /// Linker script for images, from the configuration rather than from a manifest, so the
    /// generic kernel unit never names an architecture.
    pub link_script: Option<String>,
    /// Kernel units only; `core` is the toolchain's code and its warnings are not ours.
    pub deny_warnings: bool,
    /// Keep bitcode in every library. A module is linked with link-time optimisation, which reads
    /// the bitcode of `core` and of every crate that the module uses. The kernel is not, and
    /// bitcode would only make its libraries larger.
    pub bitcode: bool,
}

/// Flags shared by every kernel crate.
pub open spec fn common_args(b: Build) -> Seq<Seq<char>> {
    seq![
        "--edition"@,
        "2024"@,
        "-Z"@,
        "unstable-options"@,
        "--target"@,
        target_arg(b.target),
        "-C"@,
        "panic=abort"@,
        "-C"@,
        "opt-level="@ + b.opt_level@,
        "-C"@,
        "debuginfo=2"@,
        "-C"@,
        "force-frame-pointers=yes"@,
        "-C"@,
        if b.bitcode {
            "embed-bitcode=yes"@
        } else {
            "embed-bitcode=no"@
        },
        "--remap-path-prefix"@,
        b.root@ + "=/kintane"@,
        "--remap-path-prefix"@,
        b.sysroot@ + "=/rust"@,
    ]
}

/// What kind of crate a unit is, and its name.
pub open spec fn crate_args(u: graph::Node) -> Seq<Seq<char>> {
    seq![
        "--crate-type"@,
        match u.kind {
            Kind::Lib => "rlib"@,
            Kind::Bin | Kind::User => "bin"@,
            Kind::Module => "staticlib"@,
        },
        "--crate-name"@,
        crate_name(u.name),
    ]
}

/// What a module adds: everything it uses is linked into it, as far as it reaches, and its own
/// sources are named by module, not by where they were built.
pub open spec fn module_args(u: graph::Node) -> Seq<Seq<char>> {
    if u.kind == Kind::Module {
        seq![
            "-C"@,
            "lto=fat"@,
            "-C"@,
            "codegen-units=1"@,
            "--remap-path-prefix"@,
            u.dir + "=/module/"@ + u.name,
        ]
    } else {
        seq![]
    }
}

/// Each of the first `n` values behind a flag.
pub open spec fn flagged(flag: Seq<char>, values: Seq<Seq<char>>, n: nat) -> Seq<Seq<char>>
    decreases n,
{
    if n == 0 {
        seq![]
    } else {
        flagged(flag, values, (n - 1) as nat).push(flag).push(values[n - 1])
    }
}

/// Dependencies, behind the implicit ones that every kernel crate gets.
pub open spec fn implicit(all: Seq<(Seq<char>, Artifact)>) -> Seq<Seq<char>> {
    let first = if artifact(all, "core"@, 0) is Some {
        seq!["core"@]
    } else {
        seq![]
    };
    if artifact(all, "compiler_builtins"@, 0) is Some {
        first.push("compiler_builtins"@)
    } else {
        first
    }
}

/// `known`, and each of the first `n` names that is not yet among them.
pub open spec fn with_new(known: Seq<Seq<char>>, names: Seq<Seq<char>>, n: nat) -> Seq<Seq<char>>
    decreases n,
{
    if n == 0 {
        known
    } else {
        let before = with_new(known, names, (n - 1) as nat);
        if before.contains(names[n - 1]) {
            before
        } else {
            before.push(names[n - 1])
        }
    }
}

/// How a dependency is named to the compiler. A program is embedded, not linked: its dependent
/// reads its path.
pub open spec fn dep_args(all: Seq<(Seq<char>, Artifact)>, name: Seq<char>) -> Seq<Seq<char>> {
    match artifact(all, name, 0) {
        None => seq![],
        Some(a) => match a.embed {
            Some(var) => seq!["--env-set"@, var + "="@ + a.path],
            None => seq!["--extern"@, crate_name(name) + "="@ + a.path],
        },
    }
}

/// How the first `n` dependencies are named.
pub open spec fn deps_args(all: Seq<(Seq<char>, Artifact)>, names: Seq<Seq<char>>, n: nat) -> Seq<Seq<char>>
    decreases n,
{
    if n == 0 {
        seq![]
    } else {
        deps_args(all, names, (n - 1) as nat) + dep_args(all, names[n - 1])
    }
}

/// What an image adds for the linker, or `None` where a script is needed and there is none. Our own
/// target specifications need our linker scripts; a built-in target brings its linker
/// configuration with it. A UEFI image is linked without a time stamp and without a symbol file
/// whose name would differ from build to build.
pub open spec fn link_args(b: Build, u: graph::Node) -> Option<Seq<Seq<char>>> {
    if u.kind != Kind::Bin {
        Some(seq![])
    } else {
        match b.target {
            Target::Builtin(_) => if image_extension_of(b.target) == "efi"@ {
                Some(seq!["-C"@, "link-arg=/Brepro"@, "-C"@, "link-arg=/DEBUG:NONE"@])
            } else {
                Some(seq![])
            },
            Target::Spec(_) => match b.link_script {
                None => None,
                Some(script) => Some(
                    seq![
                        "-C"@,
                        "link-arg=-T"@ + script@,
                        "-C"@,
                        "link-arg=-L"@ + b.gen_dir@,
                        "-C"@,
                        "link-arg=--no-warnings"@,
                    ],
                ),
            },
        }
    }
}

/// A flag with `$ROOT` and `$OUT` filled in, so that manifests stay independent of paths.
pub open spec fn expanded(b: Build, flag: Seq<char>) -> Seq<char> {
    text::replaced(text::replaced(flag, "$ROOT"@, b.root@), "$OUT"@, b.out@)
}

/// Every argument for a unit, except the output path. `kconfig` says whether the generated
/// configuration has been compiled: the units built before it exists do without.
pub open spec fn unit_args_of(b: Build, u: graph::Node, all: Seq<(Seq<char>, Artifact)>, kconfig: bool) -> Seq<
    Seq<char>,
> {
    let names = with_new(implicit(all), u.deps, u.deps.len());
    common_args(b) + crate_args(u) + module_args(u) + flagged("--cfg"@, text::views(b.cfgs@), b.cfgs@.len()) + text::views(
        b.check_cfgs@,
    ) + (if b.deny_warnings {
        seq!["-D"@, "warnings"@]
    } else {
        seq![]
    }) + deps_args(all, names, names.len()) + seq!["-L"@, b.out@] + (if kconfig {
        seq!["--extern"@, "kconfig="@ + graph::below(b.out@, "libkconfig.rlib"@)]
    } else {
        seq![]
    }) + link_args(b, u)->0 + u.rustflags.map_values(|f: Seq<char>| expanded(b, f)) + seq![
        graph::below(u.dir, u.root),
    ]
}

fn push_owned(v: &mut Vec<String>, s: String)
    ensures
        text::views(final(v)@) == text::views(old(v)@).push(s@),
{
    let ghost before = text::views(v@);
    let ghost added = s@;
    v.push(s);
    assert(text::views(v@) =~= before.push(added));
}

/// Dependencies plus the implicit ones that every kernel crate gets.
pub fn dep_order(unit: &Unit, deps: &Vec<(String, Built)>) -> (r: Vec<String>)
    ensures
        text::views(r@) == with_new(implicit(artifacts(deps@)), unit@.deps, unit@.deps.len()),
{
    let mut v: Vec<String> = Vec::new();
    assert(text::views(v@) =~= seq![]);
    if find_built(deps, "core").is_some() {
        text::push_text(&mut v, "core");
    }
    if find_built(deps, "compiler_builtins").is_some() {
        text::push_text(&mut v, "compiler_builtins");
    }
    let ghost known = implicit(artifacts(deps@));
    let mut i: usize = 0;
    while i < unit.deps.len()
        invariant
            i <= unit.deps@.len(),
            text::views(v@) == with_new(known, unit@.deps, i as nat),
        decreases unit.deps@.len() - i,
    {
        assert(unit@.deps[i as int] == unit.deps@[i as int]@);
        if !text::has_text(&v, unit.deps[i].as_str()) {
            text::push_text(&mut v, unit.deps[i].as_str());
        }
        i += 1;
    }
    v
}

impl Build {
    /// Flags shared by every kernel crate.
    pub fn common(&self) -> (r: Vec<String>)
        ensures
            text::views(r@) == common_args(*self),
    {
        let mut a: Vec<String> = Vec::new();
        assert(text::views(a@) =~= seq![]);
        text::push_text(&mut a, "--edition");
        text::push_text(&mut a, "2024");
        text::push_text(&mut a, "-Z");
        text::push_text(&mut a, "unstable-options");
        text::push_text(&mut a, "--target");
        push_owned(&mut a, self.target.arg());
        text::push_text(&mut a, "-C");
        text::push_text(&mut a, "panic=abort");
        text::push_text(&mut a, "-C");
        let mut level = "opt-level=".to_owned();
        level.append(self.opt_level.as_str());
        push_owned(&mut a, level);
        text::push_text(&mut a, "-C");
        text::push_text(&mut a, "debuginfo=2");
        text::push_text(&mut a, "-C");
        text::push_text(&mut a, "force-frame-pointers=yes");
        text::push_text(&mut a, "-C");
        text::push_text(
            &mut a,
            if self.bitcode {
                "embed-bitcode=yes"
            } else {
                "embed-bitcode=no"
            },
        );
        text::push_text(&mut a, "--remap-path-prefix");
        let mut root = self.root.clone();
        root.append("=/kintane");
        push_owned(&mut a, root);
        text::push_text(&mut a, "--remap-path-prefix");
        let mut rust = self.sysroot.clone();
        rust.append("=/rust");
        push_owned(&mut a, rust);
        a
    }

    fn push_deps(&self, a: &mut Vec<String>, names: &Vec<String>, deps: &Vec<(String, Built)>)
        ensures
            text::views(final(a)@) == text::views(old(a)@) + deps_args(
                artifacts(deps@),
                text::views(names@),
                names@.len(),
            ),
    {
        let ghost before = text::views(a@);
        let ghost (all, list) = (artifacts(deps@), text::views(names@));
        let mut i: usize = 0;
        assert(text::views(a@) =~= before + deps_args(all, list, 0));
        while i < names.len()
            invariant
                i <= names@.len(),
                all == artifacts(deps@),
                list == text::views(names@),
                text::views(a@) == before + deps_args(all, list, i as nat),
            decreases names@.len() - i,
        {
            assert(list[i as int] == names@[i as int]@);
            let ghost now = text::views(a@);
            match find_built(deps, names[i].as_str()) {
                None => {},
                Some(b) => match &b.embed {
                    Some(var) => {
                        text::push_text(a, "--env-set");
                        push_owned(a, text::three(var.as_str(), "=", b.path.as_str()));
                    },
                    None => {
                        text::push_text(a, "--extern");
                        push_owned(
                            a,
                            text::three(
                                text::exchange(names[i].as_str(), '-', '_').as_str(),
                                "=",
                                b.path.as_str(),
                            ),
                        );
                    },
                },
            }
            assert(text::views(a@) =~= before + (deps_args(all, list, i as nat) + dep_args(all, list[i as int])));
            i += 1;
        }
    }

    /// `$ROOT` and `$OUT` in a unit's flags.
    pub fn expand(&self, flag: &str) -> (r: String)
        ensures
            r@ == expanded(*self, flag@),
    {
        proof {
            reveal_strlit("$ROOT");
            reveal_strlit("$OUT");
        }
        text::replace(text::replace(flag, "$ROOT", self.root.as_str()).as_str(), "$OUT", self.out.as_str())
    }

    fn push_link(&self, a: &mut Vec<String>, unit: &Unit) -> (r: bool)
        ensures
            match link_args(*self, unit@) {
                Some(l) => r && text::views(final(a)@) == text::views(old(a)@) + l,
                None => !r,
            },
    {
        let ghost before = text::views(a@);
        assert(before =~= before + Seq::<Seq<char>>::empty());
        if unit.kind != Kind::Bin {
            return true;
        }
        match &self.target {
            Target::Builtin(_) => {
                if text::same(self.target.image_extension(), "efi") {
                    text::push_text(a, "-C");
                    text::push_text(a, "link-arg=/Brepro");
                    text::push_text(a, "-C");
                    text::push_text(a, "link-arg=/DEBUG:NONE");
                    assert(text::views(a@) =~= before + link_args(*self, unit@)->0);
                }
                true
            },
            Target::Spec(_) => match &self.link_script {
                None => false,
                Some(script) => {
                    text::push_text(a, "-C");
                    let mut t = "link-arg=-T".to_owned();
                    t.append(script.as_str());
                    push_owned(a, t);
                    text::push_text(a, "-C");
                    let mut l = "link-arg=-L".to_owned();
                    l.append(self.gen_dir.as_str());
                    push_owned(a, l);
                    text::push_text(a, "-C");
                    text::push_text(a, "link-arg=--no-warnings");
                    assert(text::views(a@) =~= before + link_args(*self, unit@)->0);
                    true
                },
            },
        }
    }

    fn push_cfgs(&self, a: &mut Vec<String>)
        ensures
            text::views(final(a)@) == text::views(old(a)@) + flagged(
                "--cfg"@,
                text::views(self.cfgs@),
                self.cfgs@.len(),
            ),
    {
        let ghost before = text::views(a@);
        let ghost list = text::views(self.cfgs@);
        let mut i: usize = 0;
        assert(text::views(a@) =~= before + flagged("--cfg"@, list, 0));
        while i < self.cfgs.len()
            invariant
                i <= self.cfgs@.len(),
                list == text::views(self.cfgs@),
                text::views(a@) == before + flagged("--cfg"@, list, i as nat),
            decreases self.cfgs@.len() - i,
        {
            assert(list[i as int] == self.cfgs@[i as int]@);
            text::push_text(a, "--cfg");
            text::push_text(a, self.cfgs[i].as_str());
            assert(text::views(a@) =~= before + flagged("--cfg"@, list, (i + 1) as nat));
            i += 1;
        }
    }

    fn push_flags(&self, a: &mut Vec<String>, unit: &Unit)
        ensures
            text::views(final(a)@) == text::views(old(a)@) + unit@.rustflags.map_values(
                |f: Seq<char>| expanded(*self, f),
            ),
    {
        let ghost before = text::views(a@);
        let ghost want = unit@.rustflags.map_values(|f: Seq<char>| expanded(*self, f));
        let mut i: usize = 0;
        assert(text::views(a@) =~= before + want.subrange(0, 0));
        while i < unit.rustflags.len()
            invariant
                i <= unit.rustflags@.len(),
                want == unit@.rustflags.map_values(|f: Seq<char>| expanded(*self, f)),
                text::views(a@) == before + want.subrange(0, i as int),
            decreases unit.rustflags@.len() - i,
        {
            assert(unit@.rustflags[i as int] == unit.rustflags@[i as int]@);
            push_owned(a, self.expand(unit.rustflags[i].as_str()));
            assert(want.subrange(0, i + 1) =~= want.subrange(0, i as int).push(want[i as int]));
            assert(text::views(a@) =~= before + want.subrange(0, i + 1));
            i += 1;
        }
        assert(want.subrange(0, i as int) =~= want);
    }

    /// Every argument that the compiler is given for `unit`, except the output path. `kconfig`
    /// says whether the generated configuration has been compiled.
    pub fn unit_args(&self, unit: &Unit, deps: &Vec<(String, Built)>, kconfig: bool) -> (r: Result<Vec<String>, String>)
        ensures
            match link_args(*self, unit@) {
                None => r is Err && r->Err_0@
                    == "this configuration selects no linker script (LINKER_SCRIPT is empty)"@,
                Some(_) => r is Ok && text::views(r->Ok_0@) == unit_args_of(*self, unit@, artifacts(deps@), kconfig),
            },
    {
        let ghost all = artifacts(deps@);
        let mut a = self.common();
        let ghost before = text::views(a@);
        text::push_text(&mut a, "--crate-type");
        text::push_text(
            &mut a,
            match unit.kind {
                Kind::Lib => "rlib",
                Kind::Bin | Kind::User => "bin",
                Kind::Module => "staticlib",
            },
        );
        text::push_text(&mut a, "--crate-name");
        push_owned(&mut a, text::exchange(unit.name.as_str(), '-', '_'));
        assert(text::views(a@) =~= before + crate_args(unit@));
        let ghost before = text::views(a@);
        if unit.kind == Kind::Module {
            text::push_text(&mut a, "-C");
            text::push_text(&mut a, "lto=fat");
            text::push_text(&mut a, "-C");
            text::push_text(&mut a, "codegen-units=1");
            text::push_text(&mut a, "--remap-path-prefix");
            push_owned(&mut a, text::three(unit.dir.as_str(), "=/module/", unit.name.as_str()));
        }
        assert(text::views(a@) =~= before + module_args(unit@));
        self.push_cfgs(&mut a);
        text::push_texts(&mut a, &self.check_cfgs);
        let ghost before = text::views(a@);
        if self.deny_warnings {
            text::push_text(&mut a, "-D");
            text::push_text(&mut a, "warnings");
        }
        assert(text::views(a@) =~= before + if self.deny_warnings {
            seq!["-D"@, "warnings"@]
        } else {
            seq![]
        });
        let names = dep_order(unit, deps);
        self.push_deps(&mut a, &names, deps);
        let ghost before = text::views(a@);
        text::push_text(&mut a, "-L");
        text::push_text(&mut a, self.out.as_str());
        assert(text::views(a@) =~= before + seq!["-L"@, self.out@]);
        let ghost before = text::views(a@);
        if kconfig {
            text::push_text(&mut a, "--extern");
            let mut k = "kconfig=".to_owned();
            k.append(graph::join_path(self.out.as_str(), "libkconfig.rlib").as_str());
            push_owned(&mut a, k);
        }
        assert(text::views(a@) =~= before + if kconfig {
            seq!["--extern"@, "kconfig="@ + graph::below(self.out@, "libkconfig.rlib"@)]
        } else {
            seq![]
        });
        if !self.push_link(&mut a, unit) {
            return Err("this configuration selects no linker script (LINKER_SCRIPT is empty)".to_owned());
        }
        self.push_flags(&mut a, unit);
        let ghost before = text::views(a@);
        push_owned(&mut a, unit.root_path());
        assert(text::views(a@) =~= before + seq![graph::below(unit@.dir, unit@.root)]);
        Ok(a)
    }
}

/// The arguments for `core`, from the pinned toolchain's own source.
pub open spec fn core_args_of(b: Build, src: Seq<char>) -> Seq<Seq<char>> {
    common_args(b) + seq![
        "--crate-type"@,
        "rlib"@,
        "--crate-name"@,
        "core"@,
        "-Z"@,
        "force-unstable-if-unmarked"@,
        src,
    ]
}

/// The arguments for the generated configuration.
pub open spec fn kconfig_args_of(b: Build, core: Seq<char>, builtins: Seq<char>, src: Seq<char>) -> Seq<Seq<char>> {
    common_args(b) + seq![
        "--crate-type"@,
        "rlib"@,
        "--crate-name"@,
        "kconfig"@,
        "--extern"@,
        "core="@ + core,
        "--extern"@,
        "compiler_builtins="@ + builtins,
        src,
    ]
}

/// The name of a unit's artifact.
pub open spec fn filename_of(b: Build, u: graph::Node) -> Seq<char> {
    let name = crate_name(u.name);
    match u.kind {
        Kind::Lib => "lib"@ + name + ".rlib"@,
        Kind::Bin => name + "."@ + image_extension_of(b.target),
        Kind::Module => "lib"@ + name + ".a"@,
        Kind::User => name + ".user.elf"@,
    }
}

/// What a target adds to a key: the contents of its specification, or its name.
pub open spec fn target_key(t: Target, spec_file: Seq<u8>) -> Seq<u8> {
    match t {
        Target::Spec(_) => cache::file_bytes(spec_file),
        Target::Builtin(n) => cache::field_bytes("builtin-target"@, n@),
    }
}

/// What the contents of the first `n` files add to a key.
pub open spec fn files_key(files: Seq<Vec<u8>>, n: nat) -> Seq<u8>
    decreases n,
{
    if n == 0 {
        seq![]
    } else {
        files_key(files, (n - 1) as nat) + cache::file_bytes(files[n - 1]@)
    }
}

/// What the keys of the first `n` dependencies add to a key.
pub open spec fn deps_key(all: Seq<(Seq<char>, Artifact)>, n: nat) -> Seq<u8>
    decreases n,
{
    if n == 0 {
        seq![]
    } else {
        deps_key(all, (n - 1) as nat) + cache::field_bytes(all[n - 1].0, all[n - 1].1.key)
    }
}

/// What the key of `core` is taken from.
pub open spec fn core_key_of(b: Build, identity: Seq<char>, args: Seq<Seq<char>>, spec_file: Seq<u8>) -> Seq<u8> {
    cache::PREFIX@ + cache::ended(identity) + cache::field_bytes("unit"@, "core"@) + cache::args_bytes(args, args.len())
        + target_key(b.target, spec_file)
}

/// What the key of a unit is taken from: everything that can affect what is built. `scripts` holds
/// the linker script and the fragments it may read, and counts for images alone.
pub open spec fn unit_key_of(
    b: Build,
    identity: Seq<char>,
    u: graph::Node,
    args: Seq<Seq<char>>,
    spec_file: Seq<u8>,
    scripts: Seq<Vec<u8>>,
    tree: Seq<cache::Leaf>,
    all: Seq<(Seq<char>, Artifact)>,
) -> Seq<u8> {
    cache::PREFIX@ + cache::ended(identity) + cache::field_bytes("unit"@, u.name) + cache::field_bytes("layer"@, u.layer)
        + cache::args_bytes(args, args.len()) + target_key(b.target, spec_file) + (if u.kind == Kind::Bin {
        files_key(scripts, scripts.len())
    } else {
        seq![]
    }) + cache::tree_bytes(cache::by_path(tree, tree.len()), tree.len()) + deps_key(all, all.len())
}

/// What the key of the generated configuration is taken from.
pub open spec fn kconfig_key_of(
    identity: Seq<char>,
    args: Seq<Seq<char>>,
    src: Seq<u8>,
    core_key: Seq<char>,
    builtins_key: Seq<char>,
) -> Seq<u8> {
    cache::PREFIX@ + cache::ended(identity) + cache::field_bytes("unit"@, "kconfig"@) + cache::args_bytes(
        args,
        args.len(),
    ) + cache::file_bytes(src) + cache::field_bytes("core"@, core_key) + cache::field_bytes(
        "compiler_builtins"@,
        builtins_key,
    )
}

impl Build {
    /// The arguments for `core`, except the output path.
    pub fn core_args(&self, src: &str) -> (r: Vec<String>)
        ensures
            text::views(r@) == core_args_of(*self, src@),
    {
        let mut a = self.common();
        let ghost before = text::views(a@);
        text::push_text(&mut a, "--crate-type");
        text::push_text(&mut a, "rlib");
        text::push_text(&mut a, "--crate-name");
        text::push_text(&mut a, "core");
        text::push_text(&mut a, "-Z");
        text::push_text(&mut a, "force-unstable-if-unmarked");
        text::push_text(&mut a, src);
        assert(text::views(a@) =~= core_args_of(*self, src@));
        a
    }

    /// The arguments for the generated configuration, except the output path.
    pub fn kconfig_args(&self, core: &str, builtins: &str, src: &str) -> (r: Vec<String>)
        ensures
            text::views(r@) == kconfig_args_of(*self, core@, builtins@, src@),
    {
        let mut a = self.common();
        text::push_text(&mut a, "--crate-type");
        text::push_text(&mut a, "rlib");
        text::push_text(&mut a, "--crate-name");
        text::push_text(&mut a, "kconfig");
        text::push_text(&mut a, "--extern");
        let mut c = "core=".to_owned();
        c.append(core);
        push_owned(&mut a, c);
        text::push_text(&mut a, "--extern");
        let mut b = "compiler_builtins=".to_owned();
        b.append(builtins);
        push_owned(&mut a, b);
        text::push_text(&mut a, src);
        assert(text::views(a@) =~= kconfig_args_of(*self, core@, builtins@, src@));
        a
    }

    /// The name of a unit's artifact.
    pub fn filename(&self, unit: &Unit) -> (r: String)
        ensures
            r@ == filename_of(*self, unit@),
    {
        let name = text::exchange(unit.name.as_str(), '-', '_');
        match unit.kind {
            Kind::Lib => text::three("lib", name.as_str(), ".rlib"),
            Kind::Bin => text::three(name.as_str(), ".", self.target.image_extension()),
            Kind::Module => text::three("lib", name.as_str(), ".a"),
            Kind::User => {
                let mut r = name;
                r.append(".user.elf");
                r
            },
        }
    }

    fn add_target(&self, kb: &mut KeyBuilder, spec_file: &[u8])
        ensures
            final(kb)@ == old(kb)@ + target_key(self.target, spec_file@),
    {
        match &self.target {
            Target::Spec(_) => kb.file(spec_file),
            Target::Builtin(t) => kb.field("builtin-target", t.as_str()),
        }
    }

    /// The cache key of `core`. `spec_file` holds the target's specification.
    pub fn core_key(&self, identity: &str, args: &Vec<String>, spec_file: &[u8]) -> (r: String)
        ensures
            r@ == digest::hex_of(digest::sha256(core_key_of(*self, identity@, text::views(args@), spec_file@)), 32),
    {
        let mut kb = KeyBuilder::new(identity);
        kb.field("unit", "core");
        kb.args(args.as_slice());
        self.add_target(&mut kb, spec_file);
        kb.finish()
    }

    /// The cache key of a unit.
    pub fn unit_key(
        &self,
        identity: &str,
        unit: &Unit,
        args: &Vec<String>,
        spec_file: &[u8],
        scripts: &Vec<Vec<u8>>,
        tree: &Vec<Source>,
        deps: &Vec<(String, Built)>,
    ) -> (r: String)
        ensures
            r@ == digest::hex_of(
                digest::sha256(
                    unit_key_of(
                        *self,
                        identity@,
                        unit@,
                        text::views(args@),
                        spec_file@,
                        scripts@,
                        cache::leaves(tree@),
                        artifacts(deps@),
                    ),
                ),
                32,
            ),
    {
        let mut kb = KeyBuilder::new(identity);
        kb.field("unit", unit.name.as_str());
        kb.field("layer", unit.layer.as_str());
        kb.args(args.as_slice());
        self.add_target(&mut kb, spec_file);
        let ghost before = kb@;
        if unit.kind == Kind::Bin {
            let mut i: usize = 0;
            assert(kb@ =~= before + files_key(scripts@, 0));
            while i < scripts.len()
                invariant
                    i <= scripts@.len(),
                    kb@ == before + files_key(scripts@, i as nat),
                decreases scripts@.len() - i,
            {
                kb.file(scripts[i].as_slice());
                assert(kb@ =~= before + (files_key(scripts@, i as nat) + cache::file_bytes(scripts@[i as int]@)));
                i += 1;
            }
        }
        assert(kb@ =~= before + if unit.kind == Kind::Bin {
            files_key(scripts@, scripts@.len())
        } else {
            seq![]
        });
        kb.source_tree(tree);
        let ghost before = kb@;
        let ghost all = artifacts(deps@);
        let mut i: usize = 0;
        assert(kb@ =~= before + deps_key(all, 0));
        while i < deps.len()
            invariant
                i <= deps@.len(),
                all == artifacts(deps@),
                kb@ == before + deps_key(all, i as nat),
            decreases deps@.len() - i,
        {
            assert(all[i as int] == (deps@[i as int].0@, deps@[i as int].1@));
            kb.field(deps[i].0.as_str(), deps[i].1.key.as_str());
            assert(kb@ =~= before + (deps_key(all, i as nat) + cache::field_bytes(
                all[i as int].0,
                all[i as int].1.key,
            )));
            i += 1;
        }
        kb.finish()
    }

    /// The cache key of the generated configuration.
    pub fn kconfig_key(&self, identity: &str, args: &Vec<String>, src: &[u8], core: &Built, builtins: &Built) -> (r:
        String)
        ensures
            r@ == digest::hex_of(
                digest::sha256(kconfig_key_of(identity@, text::views(args@), src@, core.key@, builtins.key@)),
                32,
            ),
    {
        let mut kb = KeyBuilder::new(identity);
        kb.field("unit", "kconfig");
        kb.args(args.as_slice());
        kb.file(src);
        kb.field("core", core.key.as_str());
        kb.field("compiler_builtins", builtins.key.as_str());
        kb.finish()
    }
}

pub(crate) proof fn new_names_are_named_once(known: Seq<Seq<char>>, names: Seq<Seq<char>>, n: nat)
    requires
        n <= names.len(),
        forall|a: int, b: int| 0 <= a < b < known.len() ==> #[trigger] known[a] != #[trigger] known[b],
    ensures
        ({
            let all = with_new(known, names, n);
            &&& known.is_prefix_of(all)
            &&& forall|a: int, b: int| 0 <= a < b < all.len() ==> #[trigger] all[a] != #[trigger] all[b]
            &&& forall|a: int| 0 <= a < all.len() ==> known.contains(#[trigger] all[a]) || names.contains(all[a])
            &&& forall|k: int| 0 <= k < n ==> all.contains(#[trigger] names[k])
        }),
    decreases n,
{
    if n > 0 {
        new_names_are_named_once(known, names, (n - 1) as nat);
        let before = with_new(known, names, (n - 1) as nat);
        let all = with_new(known, names, n);
        let last = names[n - 1];
        if !before.contains(last) {
            assert(all[before.len() as int] == last);
            assert forall|a: int, b: int| 0 <= a < b < all.len() implies #[trigger] all[a] != #[trigger] all[b] by {
                assert(all[a] == before[a]);
                if b < before.len() {
                    assert(all[b] == before[b]);
                } else {
                    assert(before.contains(before[a]));
                }
            }
            assert forall|a: int| 0 <= a < all.len() implies known.contains(#[trigger] all[a]) || names.contains(all[a]) by {
                if a < before.len() {
                    assert(all[a] == before[a]);
                }
            }
            assert forall|k: int| 0 <= k < n implies all.contains(#[trigger] names[k]) by {
                if k < n - 1 {
                    let j = choose|j: int| 0 <= j < before.len() && before[j] == names[k];
                    assert(all[j] == names[k]);
                }
            }
        }
    }
}

/// Nothing is visible to a crate that it did not declare: the compiler is named each dependency of a
/// unit once, and besides them only `core` and `compiler_builtins`, which every crate has.
pub proof fn only_declared_dependencies_are_named(u: graph::Node, all: Seq<(Seq<char>, Artifact)>)
    ensures
        ({
            let names = with_new(implicit(all), u.deps, u.deps.len());
            &&& forall|a: int, b: int| 0 <= a < b < names.len() ==> #[trigger] names[a] != #[trigger] names[b]
            &&& forall|a: int|
                0 <= a < names.len() ==> #[trigger] names[a] == "core"@ || names[a] == "compiler_builtins"@
                    || u.deps.contains(names[a])
            &&& forall|k: int| 0 <= k < u.deps.len() ==> names.contains(#[trigger] u.deps[k])
        }),
{
    reveal_strlit("core");
    reveal_strlit("compiler_builtins");
    assert("core"@.len() != "compiler_builtins"@.len());
    new_names_are_named_once(implicit(all), u.deps, u.deps.len());
}

} // verus!
