//! The build graph: units filtered by the resolved configuration, checked for layering, and
//! ordered for compilation.
//!
//! A unit does not declare a list of source files. The compiler finds the rest of a crate from the
//! `mod` declarations in its root, and those are where a configuration may select: inside the
//! source, not in a file list of the build manifest.

use vstd::prelude::*;
use vstd::string::*;

use crate::kcfg;
use crate::kcfg::expr;
use crate::kcfg::expr::{Expr, Tri};
use crate::kcfg::resolve;
use crate::kcfg::resolve::Resolution;
use crate::paths;
use crate::text;

pub mod order;
pub mod rules;

verus! {

#[derive(Debug, Clone, Copy, PartialEq, Eq, Structural)]
pub enum Kind {
    /// Compiled to an rlib and linked into something else.
    Lib,
    /// The final linked kernel image.
    Bin,
    /// A loadable module: built after the kernel, against its configuration, into a relocatable
    /// object that the kernel loads at run time. Enabled only by a tristate at `m`.
    Module,
    /// A program of its own, linked by itself and embedded in whatever depends on it.
    User,
}

#[derive(Debug)]
pub struct Unit {
    pub name: String,
    pub kind: Kind,
    pub dir: String,
    /// Crate root, relative to `dir`.
    pub root: String,
    pub deps: Vec<String>,
    pub layer: String,
    /// Built only when this expression holds in the resolved configuration.
    pub requires: Option<Expr>,
    /// Extra compiler arguments, used sparingly.
    pub rustflags: Vec<String>,
    /// Whether this unit's tests can run on the host against a mock architecture. Opting in is a
    /// claim that the code needs no real hardware.
    pub host_tests: bool,
    /// A target built into the compiler that this unit is built for instead of the kernel's. Such
    /// a unit is a separate image, built with its own `core` and its own copies of its
    /// dependencies.
    pub target: Option<String>,
    pub manifest: String,
}

/// A unit over mathematical values.
pub ghost struct Node {
    pub name: Seq<char>,
    pub kind: Kind,
    pub dir: Seq<char>,
    pub root: Seq<char>,
    pub deps: Seq<Seq<char>>,
    pub layer: Seq<char>,
    pub requires: Option<expr::Cond>,
    pub rustflags: Seq<Seq<char>>,
    pub host_tests: bool,
    pub target: Option<Seq<char>>,
    pub manifest: Seq<char>,
}

impl View for Unit {
    type V = Node;

    open spec fn view(&self) -> Node {
        Node {
            name: self.name@,
            kind: self.kind,
            dir: self.dir@,
            root: self.root@,
            deps: text::views(self.deps@),
            layer: self.layer@,
            requires: kcfg::opt_cond(self.requires),
            rustflags: text::views(self.rustflags@),
            host_tests: self.host_tests,
            target: text::opt(self.target),
            manifest: self.manifest@,
        }
    }
}

impl Clone for Unit {
    fn clone(&self) -> (r: Unit)
        ensures
            r@ == self@,
    {
        Unit {
            name: self.name.clone(),
            kind: self.kind,
            dir: self.dir.clone(),
            root: self.root.clone(),
            deps: text::copy_texts(&self.deps),
            layer: self.layer.clone(),
            requires: match &self.requires {
                Some(e) => Some(e.clone()),
                None => None,
            },
            rustflags: text::copy_texts(&self.rustflags),
            host_tests: self.host_tests,
            target: text::copy_opt(&self.target),
            manifest: self.manifest.clone(),
        }
    }
}

/// What a list of units holds.
pub open spec fn nodes(v: Seq<Unit>) -> Seq<Node> {
    v.map_values(|u: Unit| u@)
}

// ---- layers ----

/// The rank of a layer. A unit may depend only on units of equal or lower rank.
///
/// Bootloaders are ranked just above `hal`: they are images of their own, built for a firmware
/// target, that may link the boot protocol and nothing of the kernel's.
pub open spec fn rank_of(layer: Seq<char>) -> Option<int> {
    if layer == "builtins"@ {
        Some(0)
    } else if layer == "hal"@ {
        Some(1)
    } else if layer == "loader"@ {
        Some(2)
    } else if layer == "arch"@ {
        Some(3)
    } else if layer == "core"@ {
        Some(4)
    } else if layer == "device"@ {
        Some(5)
    } else if layer == "subsystem"@ {
        Some(6)
    } else if layer == "kernel"@ {
        Some(7)
    } else {
        None
    }
}

/// The rank of a layer.
pub fn layer_rank(name: &str) -> (r: Option<usize>)
    ensures
        match r {
            Some(n) => rank_of(name@) == Some(n as int) && n <= 7,
            None => rank_of(name@) == None::<int>,
        },
{
    if text::same(name, "builtins") {
        Some(0)
    } else if text::same(name, "hal") {
        Some(1)
    } else if text::same(name, "loader") {
        Some(2)
    } else if text::same(name, "arch") {
        Some(3)
    } else if text::same(name, "core") {
        Some(4)
    } else if text::same(name, "device") {
        Some(5)
    } else if text::same(name, "subsystem") {
        Some(6)
    } else if text::same(name, "kernel") {
        Some(7)
    } else {
        None
    }
}

// ---- paths ----

/// Where the last part of a path begins.
pub open spec fn last_part(path: Seq<char>, i: int) -> int
    decreases i,
{
    if i <= 0 || path[i - 1] == '/' {
        i
    } else {
        last_part(path, i - 1)
    }
}

/// A path below a directory; a path of its own that begins at the top.
pub open spec fn below(dir: Seq<char>, path: Seq<char>) -> Seq<char> {
    if path.len() > 0 && path[0] == '/' {
        path
    } else if dir.len() == 0 || dir[dir.len() - 1] == '/' {
        dir + path
    } else {
        dir + "/"@ + path
    }
}

/// The directory that a path of two or more parts stands in.
pub open spec fn parent(path: Seq<char>) -> Seq<char> {
    let at = last_part(path, path.len() as int);
    if at == 0 {
        seq![]
    } else {
        path.subrange(0, at - 1)
    }
}

/// The path of a file in the directory that another stands in.
pub open spec fn neighbour(path: Seq<char>, name: Seq<char>) -> Seq<char> {
    path.subrange(0, last_part(path, path.len() as int)) + name
}

/// A path below a directory.
pub fn join_path(dir: &str, path: &str) -> (r: String)
    ensures
        r@ == below(dir@, path@),
{
    let d = text::chars(dir);
    let p = text::chars(path);
    if p.len() > 0 && p[0] == '/' {
        return path.to_owned();
    }
    let mut r = dir.to_owned();
    if d.len() > 0 && d[d.len() - 1] != '/' {
        r.append("/");
    }
    r.append(path);
    r
}

/// The path of a file in the directory that another stands in.
pub fn beside(path: &str, name: &str) -> (r: String)
    ensures
        r@ == neighbour(path@, name@),
{
    let p = text::chars(path);
    let mut i: usize = p.len();
    while i > 0 && p[i - 1] != '/'
        invariant
            i <= p@.len(),
            p@ == path@,
            last_part(path@, path@.len() as int) == last_part(path@, i as int),
        decreases i,
    {
        i -= 1;
    }
    let mut r = text::string(text::part(p.as_slice(), 0, i).as_slice());
    r.append(name);
    r
}

fn parent_of(path: &str) -> (r: String)
    ensures
        r@ == parent(path@),
{
    let p = text::chars(path);
    let mut i: usize = p.len();
    while i > 0 && p[i - 1] != '/'
        invariant
            i <= p@.len(),
            p@ == path@,
            last_part(p@, p@.len() as int) == last_part(p@, i as int),
        decreases i,
    {
        i -= 1;
    }
    if i == 0 {
        assert(Seq::<char>::empty() =~= seq![]);
        return String::new();
    }
    text::string(text::part(p.as_slice(), 0, i - 1).as_slice())
}

impl Unit {
    /// The crate root.
    pub fn root_path(&self) -> (r: String)
        ensures
            r@ == below(self@.dir, self@.root),
    {
        join_path(self.dir.as_str(), self.root.as_str())
    }

    /// The directory that holds the crate root.
    pub fn src_dir(&self) -> (r: String)
        ensures
            r@ == parent(below(self@.dir, self@.root)),
    {
        parent_of(self.root_path().as_str())
    }
}

// ---- manifests ----

/// What a unit's manifest holds: each setting that is there, as it is written.
pub struct Manifest {
    pub path: String,
    pub dir: String,
    pub name: Option<String>,
    pub kind: Option<String>,
    pub root: Option<String>,
    pub layer: Option<String>,
    pub requires: Option<String>,
    pub target: Option<String>,
    pub deps: Vec<String>,
    pub rustflags: Vec<String>,
    pub host_tests: Option<bool>,
}

/// The kind of a unit by its name; a library if none is given.
pub open spec fn kind_named(name: Option<Seq<char>>) -> Option<Kind> {
    match name {
        None => Some(Kind::Lib),
        Some(n) => if n == "lib"@ {
            Some(Kind::Lib)
        } else if n == "bin"@ {
            Some(Kind::Bin)
        } else if n == "module"@ {
            Some(Kind::Module)
        } else {
            None
        },
    }
}

/// The crate root where a manifest names none.
pub open spec fn usual_root(k: Kind) -> Seq<char> {
    if k == Kind::Bin {
        "src/main.rs"@
    } else {
        "src/lib.rs"@
    }
}

/// Why a manifest is refused, if it is, before its place is put in front.
pub open spec fn refusal(m: Manifest) -> Option<Seq<char>> {
    if m.name is None {
        Some("missing `unit.name`"@)
    } else if kind_named(text::opt(m.kind)) is None {
        Some("unknown unit kind `"@ + m.kind->0@ + "`"@)
    } else if m.layer is None {
        Some("missing `unit.layer`"@)
    } else if rank_of(m.layer->0@) is None {
        Some(
            "unknown layer `"@ + m.layer->0@
                + "`; expected one of builtins, hal, loader, arch, core, device, subsystem, kernel"@,
        )
    } else if m.requires is Some && expr::condition(m.requires->0@) is Err {
        Some("config.requires: "@ + expr::condition(m.requires->0@)->Err_0)
    } else if kind_named(text::opt(m.kind)) == Some(Kind::Module) && m.requires is None {
        Some("a module unit needs `config.requires`: the tristate whose `m` builds it"@)
    } else if m.target is Some && kind_named(text::opt(m.kind)) != Some(Kind::Bin) {
        Some("`unit.target` is for images; a library is built for whoever links it"@)
    } else {
        None
    }
}

/// The unit that a manifest describes.
pub open spec fn described(m: Manifest) -> Node {
    let kind = kind_named(text::opt(m.kind))->0;
    Node {
        name: m.name->0@,
        kind,
        dir: m.dir@,
        root: match m.root {
            Some(r) => r@,
            None => usual_root(kind),
        },
        deps: text::views(m.deps@),
        layer: m.layer->0@,
        requires: match m.requires {
            Some(e) => Some(expr::condition(e@)->Ok_0),
            None => None,
        },
        rustflags: text::views(m.rustflags@),
        host_tests: m.host_tests == Some(true),
        target: text::opt(m.target),
        manifest: m.path@,
    }
}

fn refuse(m: &Manifest, why: &str) -> (r: String)
    ensures
        r@ == m.path@ + ": "@ + why@,
{
    let mut s = m.path.clone();
    s.append(": ");
    s.append(why);
    s
}

fn quoted_refusal(m: &Manifest, lead: &str, what: &str, tail: &str) -> (r: String)
    ensures
        r@ == m.path@ + ": "@ + (lead@ + what@ + tail@),
{
    let mut why = lead.to_owned();
    why.append(what);
    why.append(tail);
    refuse(m, why.as_str())
}

/// The unit that a manifest describes, or what is wrong with it.
pub fn parse_unit(m: &Manifest) -> (r: Result<Unit, String>)
    ensures
        match refusal(*m) {
            Some(why) => r is Err && r->Err_0@ == m.path@ + ": "@ + why,
            None => r is Ok && r->Ok_0@ == described(*m),
        },
{
    let name = match &m.name {
        Some(n) => n.clone(),
        None => {
            return Err(refuse(m, "missing `unit.name`"));
        },
    };
    let kind = match &m.kind {
        None => Kind::Lib,
        Some(k) => if text::same(k.as_str(), "lib") {
            Kind::Lib
        } else if text::same(k.as_str(), "bin") {
            Kind::Bin
        } else if text::same(k.as_str(), "module") {
            Kind::Module
        } else {
            return Err(quoted_refusal(m, "unknown unit kind `", k.as_str(), "`"));
        },
    };
    let root = match &m.root {
        Some(r) => r.clone(),
        None => if kind == Kind::Bin {
            "src/main.rs".to_owned()
        } else {
            "src/lib.rs".to_owned()
        },
    };
    let layer = match &m.layer {
        Some(l) => l.clone(),
        None => {
            return Err(refuse(m, "missing `unit.layer`"));
        },
    };
    if layer_rank(layer.as_str()).is_none() {
        return Err(
            quoted_refusal(
                m,
                "unknown layer `",
                layer.as_str(),
                "`; expected one of builtins, hal, loader, arch, core, device, subsystem, kernel",
            ),
        );
    }
    let wanted = match &m.requires {
        None => None,
        Some(e) => match expr::parse(e.as_str()) {
            Ok(x) => Some(x),
            Err(why) => {
                let mut s = "config.requires: ".to_owned();
                s.append(why.as_str());
                return Err(refuse(m, s.as_str()));
            },
        },
    };
    if kind == Kind::Module && wanted.is_none() {
        return Err(refuse(m, "a module unit needs `config.requires`: the tristate whose `m` builds it"));
    }
    if m.target.is_some() && kind != Kind::Bin {
        return Err(refuse(m, "`unit.target` is for images; a library is built for whoever links it"));
    }
    Ok(
        Unit {
            name,
            kind,
            dir: m.dir.clone(),
            root,
            deps: text::copy_texts(&m.deps),
            layer,
            requires: wanted,
            rustflags: text::copy_texts(&m.rustflags),
            host_tests: match m.host_tests {
                Some(b) => b,
                None => false,
            },
            target: text::copy_opt(&m.target),
            manifest: m.path.clone(),
        },
    )
}

/// What is wrong with the first of the first `n` manifests that is refused.
pub open spec fn first_refused(ms: Seq<Manifest>, n: nat) -> Option<Seq<char>>
    decreases n,
{
    if n == 0 {
        None
    } else if first_refused(ms, (n - 1) as nat) is Some {
        first_refused(ms, (n - 1) as nat)
    } else {
        match refusal(ms[n - 1]) {
            Some(why) => Some(ms[n - 1].path@ + ": "@ + why),
            None => None,
        }
    }
}

/// Whether a unit is listed before another: by name, and by directory where several provide a name.
pub open spec fn listed_before(a: Node, b: Node) -> bool {
    text::before(a.name, b.name) || (a.name == b.name && paths::path_before(a.dir, b.dir))
}

/// Where a unit goes in a list.
pub open spec fn list_slot(units: Seq<Node>, u: Node, i: int) -> int
    decreases units.len() - i,
{
    if i < 0 || i >= units.len() || listed_before(u, units[i]) {
        i
    } else {
        list_slot(units, u, i + 1)
    }
}

/// The units of the first `n` manifests, listed.
pub open spec fn listed(ms: Seq<Manifest>, n: nat) -> Seq<Node>
    decreases n,
{
    if n == 0 {
        seq![]
    } else {
        let before = listed(ms, (n - 1) as nat);
        before.insert(list_slot(before, described(ms[n - 1]), 0), described(ms[n - 1]))
    }
}

proof fn refused_stays(ms: Seq<Manifest>, n: nat, m: nat)
    requires
        first_refused(ms, n) is Some,
        n <= m,
    ensures
        first_refused(ms, m) == first_refused(ms, n),
    decreases m,
{
    if n < m {
        refused_stays(ms, n, (m - 1) as nat);
    }
}

/// Every unit of a list is in a layer there is, as its manifest was not refused.
pub proof fn discovered_units_are_layered(ms: Seq<Manifest>, n: nat)
    requires
        n <= ms.len(),
        first_refused(ms, n) is None,
    ensures
        layered(listed(ms, n)),
    decreases n,
{
    if n > 0 {
        discovered_units_are_layered(ms, (n - 1) as nat);
        list_slots_are_inside(listed(ms, (n - 1) as nat), described(ms[n - 1]), 0);
    }
}

proof fn list_slots_are_inside(units: Seq<Node>, u: Node, i: int)
    requires
        0 <= i <= units.len(),
    ensures
        i <= list_slot(units, u, i) <= units.len(),
    decreases units.len() - i,
{
    if i < units.len() && !listed_before(u, units[i]) {
        list_slots_are_inside(units, u, i + 1);
    }
}

fn find_list_slot(units: &Vec<Unit>, u: &Unit) -> (r: usize)
    ensures
        r == list_slot(nodes(units@), u@, 0),
        r <= units@.len(),
{
    let name = text::chars(u.name.as_str());
    let dir = text::chars(u.dir.as_str());
    let mut at: usize = 0;
    while at < units.len()
        invariant
            at <= units@.len(),
            name@ == u@.name,
            dir@ == u@.dir,
            list_slot(nodes(units@), u@, 0) == list_slot(nodes(units@), u@, at as int),
        decreases units@.len() - at,
    {
        let other = &units[at];
        assert(nodes(units@)[at as int] == other@);
        let there = text::chars(other.name.as_str());
        if text::comes_before(name.as_slice(), there.as_slice()) || (text::same_chars(name.as_slice(), there.as_slice())
            && paths::path_comes_before(dir.as_slice(), text::chars(other.dir.as_str()).as_slice())) {
            return at;
        }
        at += 1;
    }
    at
}

/// The units that the manifests of a tree describe, by name. Several may provide a name: which of
/// them is meant is for the configuration to say.
pub fn discover(manifests: &Vec<Manifest>) -> (r: Result<Vec<Unit>, String>)
    ensures
        match first_refused(manifests@, manifests@.len()) {
            Some(e) => r is Err && r->Err_0@ == e,
            None => r is Ok && nodes(r->Ok_0@) == listed(manifests@, manifests@.len()) && layered(nodes(r->Ok_0@)),
        },
{
    let ghost ms = manifests@;
    let mut out: Vec<Unit> = Vec::new();
    let mut i: usize = 0;
    assert(nodes(out@) =~= listed(ms, 0));
    while i < manifests.len()
        invariant
            i <= manifests@.len(),
            ms == manifests@,
            first_refused(ms, i as nat) is None,
            nodes(out@) == listed(ms, i as nat),
        decreases manifests@.len() - i,
    {
        match parse_unit(&manifests[i]) {
            Err(e) => {
                proof {
                    refused_stays(ms, (i + 1) as nat, ms.len());
                }
                return Err(e);
            },
            Ok(u) => {
                let ghost before = nodes(out@);
                let ghost node = u@;
                let at: usize = find_list_slot(&out, &u);
                out.insert(at, u);
                assert(nodes(out@) =~= before.insert(at as int, node));
            },
        }
        i += 1;
    }
    proof {
        discovered_units_are_layered(ms, ms.len());
    }
    Ok(out)
}

/// Whether a directory never holds kernel units, by its name.
pub fn is_skipped(name: &str) -> (r: bool)
    ensures
        r == (name@ == "build"@ || name@ == "target"@ || name@ == ".git"@ || name@ == "docs"@ || name@ == "kbuild"@ || (
        name@.len() > 0 && name@[0] == '.')),
{
    let n = text::chars(name);
    text::same(name, "build") || text::same(name, "target") || text::same(name, ".git") || text::same(name, "docs")
        || text::same(name, "kbuild") || (n.len() > 0 && n[0] == '.')
}

// ---- planning ----

/// What a unit's condition is worth in a configuration: `y` if it has none.
pub open spec fn level(u: Node, o: resolve::Outcome) -> Tri {
    match u.requires {
        Some(e) => resolve::eval_in(o.names, o.vals, e),
        None => Tri::Y,
    }
}

/// Whether a unit is built in a configuration.
///
/// `m` means a loadable module, so it enables exactly the units that can be one. A library at `m`
/// would be linked in as though it were `y`, which is not what was asked for; a module at `y` has
/// no way to be linked into the image at all.
pub open spec fn enabled(u: Node, o: resolve::Outcome) -> Result<bool, Seq<char>> {
    match (u.kind, level(u, o)) {
        (_, Tri::N) => Ok(false),
        (Kind::Module, Tri::M) => Ok(true),
        (Kind::Module, _) => Err(
            "`"@ + u.name + "` can only be built as a loadable module, but its condition is y\n  declared at "@
                + u.manifest + "\n  set the tristate in its `config.requires` to m"@,
        ),
        (k, Tri::M) => Err(
            "`"@ + u.name + "` is enabled by an m, but a "@ + (if k == Kind::Bin {
                "bin"@
            } else {
                "lib"@
            }) + " unit cannot be a loadable module\n  declared at "@ + u.manifest
                + "\n  set the tristate in its `config.requires` to y to build it in"@,
        ),
        _ => Ok(true),
    }
}

/// The units among the first `n` that are built in a configuration.
pub open spec fn active(units: Seq<Node>, o: resolve::Outcome, n: nat) -> Result<Seq<Node>, Seq<char>>
    decreases n,
{
    if n == 0 {
        Ok(seq![])
    } else {
        match active(units, o, (n - 1) as nat) {
            Err(e) => Err(e),
            Ok(before) => match enabled(units[n - 1], o) {
                Err(e) => Err(e),
                Ok(on) => if on {
                    Ok(before.push(units[n - 1]))
                } else {
                    Ok(before)
                },
            },
        }
    }
}

/// Where the first unit called `name` stands, from `i` on.
pub open spec fn place(units: Seq<Node>, name: Seq<char>, i: int) -> Option<int>
    decreases units.len() - i,
{
    if i < 0 || i >= units.len() {
        None
    } else if units[i].name == name {
        Some(i)
    } else {
        place(units, name, i + 1)
    }
}

/// What is wrong if two of the first `n` units have the same name.
pub open spec fn twice(units: Seq<Node>, n: nat) -> Option<Seq<char>>
    decreases n,
{
    if n == 0 {
        None
    } else if twice(units, (n - 1) as nat) is Some {
        twice(units, (n - 1) as nat)
    } else {
        let u = units[n - 1];
        match place(units, u.name, 0) {
            None => None,
            Some(j) => if j < n - 1 {
                Some(
                    "`"@ + u.name + "` is provided by two units that are both enabled:\n  "@ + units[j].manifest
                        + "\n  "@ + u.manifest
                        + "\n  narrow their `config.requires` so the configuration selects one"@,
                )
            } else {
                None
            },
        }
    }
}

/// What is wrong with unit `u` depending on `d`, if anything is.
///
/// An image built for another target is not something to link against: its code is for a
/// different machine state, if not a different machine. A module is loaded at run time; nothing
/// can link against it. And a module reaches the kernel only through the module interface, so it
/// links nothing at `arch` or above `core`, where a second copy would be a second, unrelated
/// instance. Only the final image may name the architecture crate directly.
pub open spec fn link_wrong(units: Seq<Node>, u: Node, d: Seq<char>) -> Option<Seq<char>> {
    match place(units, d, 0) {
        None => Some(
            "unit `"@ + u.name + "` depends on `"@ + d + "`, which is not in this configuration\n  declared at "@
                + u.manifest + "\n  either it is excluded by `config.requires` or the name is wrong"@,
        ),
        Some(j) => {
            let dep = units[j];
            let (rank, below) = (rank_of(u.layer)->0, rank_of(dep.layer)->0);
            if below > rank {
                Some(
                    "layering violation: `"@ + u.name + "` ("@ + u.layer + ") depends on `"@ + dep.name + "` ("@
                        + dep.layer + ")\n  dependencies point downward only\n  declared at "@ + u.manifest,
                )
            } else if dep.target is Some {
                Some(
                    "`"@ + u.name + "` depends on `"@ + dep.name + "`, which is built for "@ + dep.target->0
                        + " as an image of its own\n  declared at "@ + u.manifest,
                )
            } else if dep.kind == Kind::Module {
                Some(
                    "`"@ + u.name + "` depends on `"@ + dep.name
                        + "`, a loadable module, which nothing links against\n  declared at "@ + u.manifest,
                )
            } else if u.kind == Kind::Module && (below > 4 || dep.layer == "arch"@) {
                Some(
                    "module `"@ + u.name + "` depends on `"@ + dep.name + "` ("@ + dep.layer
                        + "); a module links only units at `core` or below, and reaches the kernel through its module interface\n  declared at "@
                        + u.manifest,
                )
            } else if dep.layer == "arch"@ && u.layer != "kernel"@ && u.layer != "arch"@ {
                Some(
                    "`"@ + u.name + "` ("@ + u.layer + ") depends on architecture unit `"@ + dep.name
                        + "`\n  only the kernel image may link arch directly; subsystems use hal traits\n  declared at "@
                        + u.manifest,
                )
            } else {
                None
            }
        },
    }
}

/// What is wrong with the first `n` dependencies of a unit: the first thing that is.
pub open spec fn links_wrong(units: Seq<Node>, u: Node, n: nat) -> Option<Seq<char>>
    decreases n,
{
    if n == 0 {
        None
    } else if links_wrong(units, u, (n - 1) as nat) is Some {
        links_wrong(units, u, (n - 1) as nat)
    } else {
        link_wrong(units, u, u.deps[n - 1])
    }
}

/// What is wrong with the dependencies of the first `n` units: the first thing that is.
pub open spec fn graph_wrong(units: Seq<Node>, n: nat) -> Option<Seq<char>>
    decreases n,
{
    if n == 0 {
        None
    } else if graph_wrong(units, (n - 1) as nat) is Some {
        graph_wrong(units, (n - 1) as nat)
    } else {
        links_wrong(units, units[n - 1], units[n - 1].deps.len())
    }
}

/// Where a unit called `name` goes among units sorted by name.
pub open spec fn slot(units: Seq<Node>, name: Seq<char>, i: int) -> int
    decreases units.len() - i,
{
    if i < 0 || i >= units.len() || text::before(name, units[i].name) {
        i
    } else {
        slot(units, name, i + 1)
    }
}

/// The first `n` units, sorted by name.
pub open spec fn by_name(units: Seq<Node>, n: nat) -> Seq<Node>
    decreases n,
{
    if n == 0 {
        seq![]
    } else {
        let before = by_name(units, (n - 1) as nat);
        before.insert(slot(before, units[n - 1].name, 0), units[n - 1])
    }
}

/// Which units each unit depends on, by number.
pub open spec fn links(units: Seq<Node>) -> order::Links {
    Seq::new(units.len(), |i: int| Seq::new(units[i].deps.len(), |k: int| place(units, units[i].deps[k], 0)->0))
}

/// The names along a path of numbers.
pub open spec fn names_along(units: Seq<Node>, path: Seq<int>) -> Seq<Seq<char>> {
    path.map_values(|i: int| units[i].name)
}

/// The units of a graph in an order in which dependencies come first.
pub open spec fn sorted_out(units: Seq<Node>) -> Result<Seq<Node>, Seq<char>> {
    let sorted = by_name(units, units.len());
    match order::ordered(links(sorted)) {
        Ok(out) => Ok(out.map_values(|i: int| sorted[i])),
        Err(c) => Err("dependency cycle: "@ + text::joined(names_along(sorted, c), " -> "@)),
    }
}

/// The units to build, in order, or why they cannot be built.
pub open spec fn planned(units: Seq<Node>, o: resolve::Outcome) -> Result<Seq<Node>, Seq<char>> {
    match active(units, o, units.len()) {
        Err(e) => Err(e),
        Ok(on) => if twice(on, on.len()) is Some {
            Err(twice(on, on.len())->0)
        } else if graph_wrong(on, on.len()) is Some {
            Err(graph_wrong(on, on.len())->0)
        } else {
            sorted_out(on)
        },
    }
}

/// Whether every unit's layer is one there is.
pub open spec fn layered(units: Seq<Node>) -> bool {
    forall|i: int| 0 <= i < units.len() ==> rank_of((#[trigger] units[i]).layer) is Some
}

fn check_enabled(u: &Unit, res: &Resolution) -> (r: Result<bool, String>)
    ensures
        match r {
            Ok(on) => enabled(u@, res@) == Ok::<bool, Seq<char>>(on),
            Err(e) => enabled(u@, res@) == Err::<bool, Seq<char>>(e@),
        },
{
    let level = match &u.requires {
        Some(e) => resolve::eval(e, res),
        None => Tri::Y,
    };
    match level {
        Tri::N => Ok(false),
        Tri::M => if u.kind == Kind::Module {
            Ok(true)
        } else {
            let mut m = "`".to_owned();
            m.append(u.name.as_str());
            m.append("` is enabled by an m, but a ");
            m.append(
                if u.kind == Kind::Bin {
                    "bin"
                } else {
                    "lib"
                },
            );
            m.append(" unit cannot be a loadable module\n  declared at ");
            m.append(u.manifest.as_str());
            m.append("\n  set the tristate in its `config.requires` to y to build it in");
            Err(m)
        },
        Tri::Y => if u.kind == Kind::Module {
            let mut m = "`".to_owned();
            m.append(u.name.as_str());
            m.append("` can only be built as a loadable module, but its condition is y\n  declared at ");
            m.append(u.manifest.as_str());
            m.append("\n  set the tristate in its `config.requires` to m");
            Err(m)
        } else {
            Ok(true)
        },
    }
}

proof fn active_errors_stay(units: Seq<Node>, o: resolve::Outcome, n: nat, m: nat)
    requires
        active(units, o, n) is Err,
        n <= m,
    ensures
        active(units, o, m) == active(units, o, n),
    decreases m,
{
    if n < m {
        active_errors_stay(units, o, n, (m - 1) as nat);
    }
}

proof fn active_stays_layered(units: Seq<Node>, o: resolve::Outcome, n: nat)
    requires
        layered(units),
        n <= units.len(),
    ensures
        active(units, o, n) is Ok ==> layered(active(units, o, n)->Ok_0),
    decreases n,
{
    if n > 0 {
        active_stays_layered(units, o, (n - 1) as nat);
    }
}

fn find_active(units: &Vec<Unit>, res: &Resolution) -> (r: Result<Vec<Unit>, String>)
    ensures
        match r {
            Ok(on) => active(nodes(units@), res@, units@.len()) == Ok::<Seq<Node>, Seq<char>>(nodes(on@)),
            Err(e) => active(nodes(units@), res@, units@.len()) == Err::<Seq<Node>, Seq<char>>(e@),
        },
{
    let ghost all = nodes(units@);
    let mut on: Vec<Unit> = Vec::new();
    let mut i: usize = 0;
    assert(nodes(on@) =~= seq![]);
    while i < units.len()
        invariant
            i <= units@.len(),
            all == nodes(units@),
            active(all, res@, i as nat) == Ok::<Seq<Node>, Seq<char>>(nodes(on@)),
        decreases units@.len() - i,
    {
        assert(all[i as int] == units@[i as int]@);
        match check_enabled(&units[i], res) {
            Err(e) => {
                proof {
                    active_errors_stay(all, res@, (i + 1) as nat, all.len());
                }
                return Err(e);
            },
            Ok(yes) => {
                if yes {
                    let ghost before = nodes(on@);
                    on.push(units[i].clone());
                    assert(nodes(on@) =~= before.push(all[i as int]));
                }
            },
        }
        i += 1;
    }
    Ok(on)
}

/// Where the unit called `name` stands.
pub fn find_unit(units: &Vec<Unit>, name: &str) -> (r: Option<usize>)
    ensures
        match r {
            Some(j) => place(nodes(units@), name@, 0) == Some(j as int) && j < units@.len(),
            None => place(nodes(units@), name@, 0) == None::<int>,
        },
{
    let mut i: usize = 0;
    while i < units.len()
        invariant
            i <= units@.len(),
            place(nodes(units@), name@, 0) == place(nodes(units@), name@, i as int),
        decreases units@.len() - i,
    {
        assert(nodes(units@)[i as int].name == units@[i as int].name@);
        if text::same(units[i].name.as_str(), name) {
            return Some(i);
        }
        i += 1;
    }
    None
}

fn find_twice(units: &Vec<Unit>) -> (r: Option<String>)
    ensures
        match r {
            Some(e) => twice(nodes(units@), units@.len()) == Some(e@),
            None => twice(nodes(units@), units@.len()) == None::<Seq<char>>,
        },
{
    let ghost all = nodes(units@);
    let mut i: usize = 0;
    while i < units.len()
        invariant
            i <= units@.len(),
            all == nodes(units@),
            twice(all, i as nat) is None,
        decreases units@.len() - i,
    {
        let u = &units[i];
        assert(all[i as int] == u@);
        match find_unit(units, u.name.as_str()) {
            None => {},
            Some(j) => {
                if j < i {
                    assert(all[j as int] == units@[j as int]@);
                    let mut m = "`".to_owned();
                    m.append(u.name.as_str());
                    m.append("` is provided by two units that are both enabled:\n  ");
                    m.append(units[j].manifest.as_str());
                    m.append("\n  ");
                    m.append(u.manifest.as_str());
                    m.append("\n  narrow their `config.requires` so the configuration selects one");
                    proof {
                        twice_stays(all, (i + 1) as nat, all.len());
                    }
                    return Some(m);
                }
            },
        }
        i += 1;
    }
    None
}

proof fn twice_stays(units: Seq<Node>, n: nat, m: nat)
    requires
        twice(units, n) is Some,
        n <= m,
    ensures
        twice(units, m) == twice(units, n),
    decreases m,
{
    if n < m {
        twice_stays(units, n, (m - 1) as nat);
    }
}

fn check_link(units: &Vec<Unit>, u: &Unit, d: &str) -> (r: Option<String>)
    requires
        layered(nodes(units@)),
        rank_of(u@.layer) is Some,
    ensures
        match r {
            Some(e) => link_wrong(nodes(units@), u@, d@) == Some(e@),
            None => link_wrong(nodes(units@), u@, d@) == None::<Seq<char>>,
        },
{
    let ghost all = nodes(units@);
    match find_unit(units, d) {
        None => {
            let mut m = "unit `".to_owned();
            m.append(u.name.as_str());
            m.append("` depends on `");
            m.append(d);
            m.append("`, which is not in this configuration\n  declared at ");
            m.append(u.manifest.as_str());
            m.append("\n  either it is excluded by `config.requires` or the name is wrong");
            Some(m)
        },
        Some(j) => {
            let dep = &units[j];
            assert(all[j as int] == dep@);
            let rank: usize = match layer_rank(u.layer.as_str()) {
                Some(n) => n,
                None => 0,
            };
            let below: usize = match layer_rank(dep.layer.as_str()) {
                Some(n) => n,
                None => 0,
            };
            if below > rank {
                let mut m = "layering violation: `".to_owned();
                m.append(u.name.as_str());
                m.append("` (");
                m.append(u.layer.as_str());
                m.append(") depends on `");
                m.append(dep.name.as_str());
                m.append("` (");
                m.append(dep.layer.as_str());
                m.append(")\n  dependencies point downward only\n  declared at ");
                m.append(u.manifest.as_str());
                return Some(m);
            }
            if let Some(target) = &dep.target {
                let mut m = "`".to_owned();
                m.append(u.name.as_str());
                m.append("` depends on `");
                m.append(dep.name.as_str());
                m.append("`, which is built for ");
                m.append(target.as_str());
                m.append(" as an image of its own\n  declared at ");
                m.append(u.manifest.as_str());
                return Some(m);
            }
            if dep.kind == Kind::Module {
                let mut m = "`".to_owned();
                m.append(u.name.as_str());
                m.append("` depends on `");
                m.append(dep.name.as_str());
                m.append("`, a loadable module, which nothing links against\n  declared at ");
                m.append(u.manifest.as_str());
                return Some(m);
            }
            let arch: bool = text::same(dep.layer.as_str(), "arch");
            if u.kind == Kind::Module && (below > 4 || arch) {
                let mut m = "module `".to_owned();
                m.append(u.name.as_str());
                m.append("` depends on `");
                m.append(dep.name.as_str());
                m.append("` (");
                m.append(dep.layer.as_str());
                m.append(
                    "); a module links only units at `core` or below, and reaches the kernel through its module interface\n  declared at ",
                );
                m.append(u.manifest.as_str());
                return Some(m);
            }
            if arch && !text::same(u.layer.as_str(), "kernel") && !text::same(u.layer.as_str(), "arch") {
                let mut m = "`".to_owned();
                m.append(u.name.as_str());
                m.append("` (");
                m.append(u.layer.as_str());
                m.append(") depends on architecture unit `");
                m.append(dep.name.as_str());
                m.append(
                    "`\n  only the kernel image may link arch directly; subsystems use hal traits\n  declared at ",
                );
                m.append(u.manifest.as_str());
                return Some(m);
            }
            None
        },
    }
}

fn check_links(units: &Vec<Unit>, u: &Unit) -> (r: Option<String>)
    requires
        layered(nodes(units@)),
        rank_of(u@.layer) is Some,
    ensures
        match r {
            Some(e) => links_wrong(nodes(units@), u@, u@.deps.len()) == Some(e@),
            None => links_wrong(nodes(units@), u@, u@.deps.len()) == None::<Seq<char>>,
        },
{
    let ghost all = nodes(units@);
    let mut k: usize = 0;
    while k < u.deps.len()
        invariant
            k <= u.deps@.len(),
            all == nodes(units@),
            layered(all),
            rank_of(u@.layer) is Some,
            links_wrong(all, u@, k as nat) is None,
        decreases u.deps@.len() - k,
    {
        assert(u@.deps[k as int] == u.deps@[k as int]@);
        if let Some(e) = check_link(units, u, u.deps[k].as_str()) {
            proof {
                links_wrong_stays(all, u@, (k + 1) as nat, u@.deps.len());
            }
            return Some(e);
        }
        k += 1;
    }
    None
}

proof fn links_wrong_stays(units: Seq<Node>, u: Node, n: nat, m: nat)
    requires
        links_wrong(units, u, n) is Some,
        n <= m,
    ensures
        links_wrong(units, u, m) == links_wrong(units, u, n),
    decreases m,
{
    if n < m {
        links_wrong_stays(units, u, n, (m - 1) as nat);
    }
}

fn check_graph(units: &Vec<Unit>) -> (r: Option<String>)
    requires
        layered(nodes(units@)),
    ensures
        match r {
            Some(e) => graph_wrong(nodes(units@), units@.len()) == Some(e@),
            None => graph_wrong(nodes(units@), units@.len()) == None::<Seq<char>>,
        },
{
    let ghost all = nodes(units@);
    let mut i: usize = 0;
    while i < units.len()
        invariant
            i <= units@.len(),
            all == nodes(units@),
            layered(all),
            graph_wrong(all, i as nat) is None,
        decreases units@.len() - i,
    {
        assert(all[i as int] == units@[i as int]@);
        if let Some(e) = check_links(units, &units[i]) {
            proof {
                graph_wrong_stays(all, (i + 1) as nat, all.len());
            }
            return Some(e);
        }
        i += 1;
    }
    None
}

proof fn graph_wrong_stays(units: Seq<Node>, n: nat, m: nat)
    requires
        graph_wrong(units, n) is Some,
        n <= m,
    ensures
        graph_wrong(units, m) == graph_wrong(units, n),
    decreases m,
{
    if n < m {
        graph_wrong_stays(units, n, (m - 1) as nat);
    }
}

fn find_slot(units: &Vec<Unit>, name: &[char]) -> (r: usize)
    ensures
        r == slot(nodes(units@), name@, 0),
        r <= units@.len(),
{
    let mut at: usize = 0;
    while at < units.len()
        invariant
            at <= units@.len(),
            slot(nodes(units@), name@, 0) == slot(nodes(units@), name@, at as int),
        decreases units@.len() - at,
    {
        assert(nodes(units@)[at as int].name == units@[at as int].name@);
        if text::comes_before(name, text::chars(units[at].name.as_str()).as_slice()) {
            return at;
        }
        at += 1;
    }
    at
}

fn sort_by_name(units: Vec<Unit>) -> (r: Vec<Unit>)
    ensures
        nodes(r@) == by_name(nodes(units@), units@.len()),
{
    let ghost all = nodes(units@);
    let mut out: Vec<Unit> = Vec::new();
    let mut i: usize = 0;
    assert(nodes(out@) =~= by_name(all, 0));
    while i < units.len()
        invariant
            i <= units@.len(),
            all == nodes(units@),
            nodes(out@) == by_name(all, i as nat),
        decreases units@.len() - i,
    {
        assert(all[i as int] == units@[i as int]@);
        let name = text::chars(units[i].name.as_str());
        let ghost before = nodes(out@);
        let at: usize = find_slot(&out, name.as_slice());
        let u = units[i].clone();
        let ghost node = u@;
        out.insert(at, u);
        assert(nodes(out@) =~= before.insert(at as int, node));
        i += 1;
    }
    out
}

/// Where a unit is found there is one of that name, and where none is found there is none.
pub(crate) proof fn places_are_inside(units: Seq<Node>, name: Seq<char>, i: int)
    requires
        i >= 0,
    ensures
        match place(units, name, i) {
            Some(j) => i <= j < units.len() && units[j].name == name,
            None => forall|j: int| i <= j < units.len() ==> (#[trigger] units[j]).name != name,
        },
    decreases units.len() - i,
{
    if i < units.len() && units[i].name != name {
        places_are_inside(units, name, i + 1);
    }
}

pub(crate) proof fn sorting_keeps(units: Seq<Node>, n: nat)
    requires
        n <= units.len(),
    ensures
        by_name(units, n).len() == n,
        forall|i: int| 0 <= i < n ==> by_name(units, n).contains(#[trigger] units[i]),
        forall|k: int|
            0 <= k < n ==> exists|i: int| 0 <= i < n && #[trigger] units[i] == #[trigger] by_name(units, n)[k],
    decreases n,
{
    if n > 0 {
        sorting_keeps(units, (n - 1) as nat);
        let before = by_name(units, (n - 1) as nat);
        let u = units[n - 1];
        slot_is_inside(before, u.name, 0);
        let at = slot(before, u.name, 0);
        let after = before.insert(at, u);
        assert forall|i: int| 0 <= i < n implies after.contains(#[trigger] units[i]) by {
            if i == n - 1 {
                assert(after[at] == u);
            } else {
                assert(before.contains(units[i]));
                let k = choose|k: int| 0 <= k < before.len() && before[k] == units[i];
                assert(after[if k < at {
                    k
                } else {
                    k + 1
                }] == units[i]);
            }
        }
        assert forall|k: int| 0 <= k < n implies exists|i: int|
            0 <= i < n && #[trigger] units[i] == #[trigger] after[k] by {
            if k == at {
                assert(units[n - 1] == after[k]);
            } else {
                let b = if k < at {
                    k
                } else {
                    k - 1
                };
                assert(after[k] == before[b]);
                let i = choose|i: int| 0 <= i < n - 1 && #[trigger] units[i] == before[b];
                assert(units[i] == after[k]);
            }
        }
    }
}

pub(crate) proof fn slot_is_inside(units: Seq<Node>, name: Seq<char>, i: int)
    requires
        0 <= i <= units.len(),
    ensures
        i <= slot(units, name, i) <= units.len(),
    decreases units.len() - i,
{
    if i < units.len() && !text::before(name, units[i].name) {
        slot_is_inside(units, name, i + 1);
    }
}

proof fn links_lead_somewhere(units: Seq<Node>, n: nat)
    requires
        n <= units.len(),
        graph_wrong(units, n) is None,
    ensures
        forall|i: int, k: int|
            0 <= i < n && 0 <= k < units[i].deps.len() ==> link_wrong(units, units[i], #[trigger] units[i].deps[k]) is None,
    decreases n,
{
    if n > 0 {
        links_lead_somewhere(units, (n - 1) as nat);
        every_link_is_right(units, units[n - 1], units[n - 1].deps.len());
    }
}

proof fn every_link_is_right(units: Seq<Node>, u: Node, n: nat)
    requires
        n <= u.deps.len(),
        links_wrong(units, u, n) is None,
    ensures
        forall|k: int| 0 <= k < n ==> link_wrong(units, u, #[trigger] u.deps[k]) is None,
    decreases n,
{
    if n > 0 {
        every_link_is_right(units, u, (n - 1) as nat);
    }
}

pub(crate) proof fn names_differ(units: Seq<Node>, n: nat)
    requires
        n <= units.len(),
        twice(units, n) is None,
    ensures
        forall|i: int, j: int| 0 <= i < j < n ==> (#[trigger] units[i]).name != (#[trigger] units[j]).name,
    decreases n,
{
    if n > 0 {
        names_differ(units, (n - 1) as nat);
        let u = units[n - 1];
        places_are_inside(units, u.name, 0);
        first_of_name(units, u.name, 0);
    }
}

/// A unit is found at the first place that its name stands.
pub(crate) proof fn first_of_name(units: Seq<Node>, name: Seq<char>, i: int)
    requires
        i >= 0,
    ensures
        forall|j: int|
            i <= j < units.len() && (#[trigger] units[j]).name == name ==> place(units, name, i) is Some && place(
                units,
                name,
                i,
            )->0 <= j,
    decreases units.len() - i,
{
    if i < units.len() && units[i].name != name {
        first_of_name(units, name, i + 1);
    }
}

/// What a dependency of a planned unit leads to: the one unit of that name.
pub(crate) proof fn dependencies_are_found(units: Seq<Node>, i: int, k: int)
    requires
        twice(units, units.len()) is None,
        graph_wrong(units, units.len()) is None,
        0 <= i < by_name(units, units.len()).len(),
        0 <= k < by_name(units, units.len())[i].deps.len(),
    ensures
        ({
            let sorted = by_name(units, units.len());
            let (u, d) = (sorted[i], sorted[i].deps[k]);
            &&& link_wrong(units, u, d) is None
            &&& place(units, d, 0) is Some
            &&& place(sorted, d, 0) is Some
            &&& 0 <= place(sorted, d, 0)->0 < sorted.len()
            &&& sorted[place(sorted, d, 0)->0] == units[place(units, d, 0)->0]
            &&& units[place(units, d, 0)->0].name == d
        }),
{
    let sorted = by_name(units, units.len());
    let (u, d) = (sorted[i], sorted[i].deps[k]);
    sorting_keeps(units, units.len());
    links_lead_somewhere(units, units.len());
    names_differ(units, units.len());
    let a = choose|a: int| 0 <= a < units.len() && #[trigger] units[a] == sorted[i];
    assert(link_wrong(units, units[a], units[a].deps[k]) is None);
    places_are_inside(units, d, 0);
    let j = place(units, d, 0)->0;
    assert(sorted.contains(units[j]));
    let p = choose|p: int| 0 <= p < sorted.len() && sorted[p] == units[j];
    first_of_name(sorted, d, 0);
    assert(sorted[p].name == d);
    places_are_inside(sorted, d, 0);
    let q = place(sorted, d, 0)->0;
    let b = choose|b: int| 0 <= b < units.len() && #[trigger] units[b] == sorted[q];
    assert(units[b].name == d && units[j].name == d);
}

pub(crate) proof fn planned_links_are_closed(units: Seq<Node>)
    requires
        twice(units, units.len()) is None,
        graph_wrong(units, units.len()) is None,
    ensures
        order::closed_graph(links(by_name(units, units.len()))),
{
    let sorted = by_name(units, units.len());
    let g = links(sorted);
    assert forall|i: int, k: int| 0 <= i < g.len() && 0 <= k < g[i].len() implies 0 <= #[trigger] g[i][k] < g.len() by {
        dependencies_are_found(units, i, k);
    }
}

fn make_links(units: &Vec<Unit>) -> (r: Vec<Vec<usize>>)
    requires
        order::closed_graph(links(nodes(units@))),
        forall|i: int, k: int|
            0 <= i < units@.len() && 0 <= k < nodes(units@)[i].deps.len() ==> place(
                nodes(units@),
                #[trigger] nodes(units@)[i].deps[k],
                0,
            ) is Some,
    ensures
        order::links_of(r@) == links(nodes(units@)),
{
    let ghost all = nodes(units@);
    let mut r: Vec<Vec<usize>> = Vec::new();
    let mut i: usize = 0;
    while i < units.len()
        invariant
            i <= units@.len(),
            all == nodes(units@),
            r@.len() == i,
            forall|j: int, k: int|
                0 <= j < units@.len() && 0 <= k < all[j].deps.len() ==> place(all, #[trigger] all[j].deps[k], 0) is Some,
            forall|j: int| 0 <= j < i ==> order::numbers((#[trigger] r@[j])@) == links(all)[j],
        decreases units@.len() - i,
    {
        let u = &units[i];
        assert(all[i as int] == u@);
        let mut list: Vec<usize> = Vec::new();
        let mut k: usize = 0;
        while k < u.deps.len()
            invariant
                k <= u.deps@.len(),
                i < units@.len(),
                all == nodes(units@),
                all[i as int] == u@,
                list@.len() == k,
                forall|j: int, m: int|
                    0 <= j < units@.len() && 0 <= m < all[j].deps.len() ==> place(
                        all,
                        #[trigger] all[j].deps[m],
                        0,
                    ) is Some,
                forall|m: int| 0 <= m < k ==> #[trigger] list@[m] == links(all)[i as int][m],
            decreases u.deps@.len() - k,
        {
            assert(all[i as int].deps[k as int] == u.deps@[k as int]@);
            match find_unit(units, u.deps[k].as_str()) {
                Some(j) => {
                    list.push(j);
                },
                None => {
                    assert(place(all, all[i as int].deps[k as int], 0) is Some);
                    list.push(0);
                },
            }
            k += 1;
        }
        assert(order::numbers(list@) =~= links(all)[i as int]);
        r.push(list);
        i += 1;
    }
    assert(order::links_of(r@) =~= links(all));
    r
}

fn topo_sort(units: Vec<Unit>) -> (r: Result<Vec<Unit>, String>)
    requires
        twice(nodes(units@), units@.len()) is None,
        graph_wrong(nodes(units@), units@.len()) is None,
    ensures
        match r {
            Ok(out) => sorted_out(nodes(units@)) == Ok::<Seq<Node>, Seq<char>>(nodes(out@)),
            Err(e) => sorted_out(nodes(units@)) == Err::<Seq<Node>, Seq<char>>(e@),
        },
{
    let ghost all = nodes(units@);
    let sorted = sort_by_name(units);
    let ghost s = nodes(sorted@);
    proof {
        planned_links_are_closed(all);
        assert forall|i: int, k: int| 0 <= i < s.len() && 0 <= k < s[i].deps.len() implies place(
            s,
            #[trigger] s[i].deps[k],
            0,
        ) is Some by {
            dependencies_are_found(all, i, k);
        }
    }
    let table = make_links(&sorted);
    let ghost g = links(s);
    match order::order(&table) {
        Ok(numbers) => {
            proof {
                order::ordered_graphs_are_in_order(g);
            }
            let ghost want = order::numbers(numbers@);
            let mut out: Vec<Unit> = Vec::new();
            let mut i: usize = 0;
            while i < numbers.len()
                invariant
                    i <= numbers@.len(),
                    s == nodes(sorted@),
                    g.len() == s.len(),
                    want == order::numbers(numbers@),
                    order::distinct_nodes(g, want),
                    out@.len() == i,
                    forall|k: int| 0 <= k < i ==> (#[trigger] out@[k])@ == s[want[k]],
                decreases numbers@.len() - i,
            {
                assert(want[i as int] == numbers@[i as int]);
                assert(s[numbers@[i as int] as int] == sorted@[numbers@[i as int] as int]@);
                out.push(sorted[numbers[i]].clone());
                i += 1;
            }
            assert(nodes(out@) =~= want.map_values(|i: int| s[i]));
            Ok(out)
        },
        Err(c) => {
            proof {
                order::cycles_hold_nodes(g);
            }
            let ghost want = order::numbers(c@);
            let mut names: Vec<String> = Vec::new();
            let mut i: usize = 0;
            while i < c.len()
                invariant
                    i <= c@.len(),
                    s == nodes(sorted@),
                    g.len() == s.len(),
                    want == order::numbers(c@),
                    forall|k: int| 0 <= k < want.len() ==> 0 <= #[trigger] want[k] < g.len(),
                    names@.len() == i,
                    forall|k: int| 0 <= k < i ==> (#[trigger] names@[k])@ == s[want[k]].name,
                decreases c@.len() - i,
            {
                assert(want[i as int] == c@[i as int]);
                assert(s[c@[i as int] as int] == sorted@[c@[i as int] as int]@);
                names.push(sorted[c[i]].name.clone());
                i += 1;
            }
            assert(text::views(names@) =~= names_along(s, want));
            let mut m = "dependency cycle: ".to_owned();
            m.append(text::join(&names, " -> ").as_str());
            Err(m)
        },
    }
}

/// Drop the units that the configuration excludes, check dependencies and layering, and return the
/// units in an order in which every dependency precedes its dependents.
pub fn plan(units: Vec<Unit>, res: &Resolution) -> (r: Result<Vec<Unit>, String>)
    requires
        layered(nodes(units@)),
    ensures
        match r {
            Ok(out) => planned(nodes(units@), res@) == Ok::<Seq<Node>, Seq<char>>(nodes(out@)),
            Err(e) => planned(nodes(units@), res@) == Err::<Seq<Node>, Seq<char>>(e@),
        },
{
    let on = match find_active(&units, res) {
        Ok(on) => on,
        Err(e) => {
            return Err(e);
        },
    };
    proof {
        active_stays_layered(nodes(units@), res@, units@.len());
    }
    if let Some(e) = find_twice(&on) {
        return Err(e);
    }
    if let Some(e) = check_graph(&on) {
        return Err(e);
    }
    topo_sort(on)
}

/// A planned build holds each enabled unit once, and everything a unit depends on comes before it.
pub proof fn dependencies_come_first(units: Seq<Node>, o: resolve::Outcome)
    requires
        planned(units, o) is Ok,
    ensures
        ({
            let (on, out) = (active(units, o, units.len())->Ok_0, planned(units, o)->Ok_0);
            &&& out.len() == on.len()
            &&& forall|i: int| 0 <= i < on.len() ==> out.contains(#[trigger] on[i])
            &&& forall|i: int, j: int| 0 <= i < j < out.len() ==> (#[trigger] out[i]).name != (#[trigger] out[j]).name
            &&& forall|i: int, k: int|
                0 <= i < out.len() && 0 <= k < out[i].deps.len() ==> place(
                    out.subrange(0, i),
                    #[trigger] out[i].deps[k],
                    0,
                ) is Some
        }),
{
    let on = active(units, o, units.len())->Ok_0;
    let sorted = by_name(on, on.len());
    let g = links(sorted);
    let out = planned(units, o)->Ok_0;
    let idx = order::ordered(g)->Ok_0;
    planned_links_are_closed(on);
    order::ordered_graphs_are_in_order(g);
    sorting_keeps(on, on.len());
    names_differ(on, on.len());
    assert(out == idx.map_values(|i: int| sorted[i]));
    assert forall|i: int| 0 <= i < on.len() implies out.contains(#[trigger] on[i]) by {
        assert(sorted.contains(on[i]));
        let p = choose|p: int| 0 <= p < sorted.len() && sorted[p] == on[i];
        assert(idx.contains(p));
        let q = choose|q: int| 0 <= q < idx.len() && idx[q] == p;
        assert(out[q] == on[i]);
    }
    sorted_names_differ(on);
    assert forall|i: int, j: int| 0 <= i < j < out.len() implies (#[trigger] out[i]).name != (#[trigger] out[j]).name by {
        assert(idx[i] != idx[j]);
        assert(sorted[idx[i]].name != sorted[idx[j]].name);
    }
    assert forall|i: int, k: int| 0 <= i < out.len() && 0 <= k < out[i].deps.len() implies place(
        out.subrange(0, i),
        #[trigger] out[i].deps[k],
        0,
    ) is Some by {
        let at = idx[i];
        let d = out[i].deps[k];
        dependencies_are_found(on, at, k);
        assert(idx.subrange(0, i).contains(g[at][k]));
        let j = choose|j: int| 0 <= j < i && idx.subrange(0, i)[j] == g[at][k];
        assert(idx[j] == g[at][k]);
        assert(g[at][k] == place(sorted, sorted[at].deps[k], 0)->0);
        assert(out.subrange(0, i)[j].name == d);
        first_of_name(out.subrange(0, i), d, 0);
    }
}

proof fn sorted_names_differ(on: Seq<Node>)
    requires
        twice(on, on.len()) is None,
    ensures
        forall|i: int, j: int|
            0 <= i < by_name(on, on.len()).len() && 0 <= j < by_name(on, on.len()).len() && i != j ==> (
            #[trigger] by_name(on, on.len())[i]).name != (#[trigger] by_name(on, on.len())[j]).name,
{
    names_differ(on, on.len());
    sorting_differs(on, on.len());
}

proof fn sorting_differs(on: Seq<Node>, n: nat)
    requires
        n <= on.len(),
        forall|i: int, j: int| 0 <= i < j < on.len() ==> (#[trigger] on[i]).name != (#[trigger] on[j]).name,
    ensures
        forall|i: int, j: int|
            0 <= i < by_name(on, n).len() && 0 <= j < by_name(on, n).len() && i != j ==> (#[trigger] by_name(
                on,
                n,
            )[i]).name != (#[trigger] by_name(on, n)[j]).name,
    decreases n,
{
    if n > 0 {
        sorting_differs(on, (n - 1) as nat);
        sorting_keeps(on, (n - 1) as nat);
        let before = by_name(on, (n - 1) as nat);
        let u = on[n - 1];
        let at = slot(before, u.name, 0);
        slot_is_inside(before, u.name, 0);
        let after = before.insert(at, u);
        assert forall|b: int| 0 <= b < before.len() implies (#[trigger] before[b]).name != u.name by {
            let i = choose|i: int| 0 <= i < n - 1 && #[trigger] on[i] == before[b];
            assert(on[i].name != on[n - 1].name);
        }
        assert forall|i: int, j: int| 0 <= i < after.len() && 0 <= j < after.len() && i != j implies (
        #[trigger] after[i]).name != (#[trigger] after[j]).name by {
            let a = if i < at {
                i
            } else {
                i - 1
            };
            let b = if j < at {
                j
            } else {
                j - 1
            };
            if i == at {
                assert(after[j] == before[b]);
            } else if j == at {
                assert(after[i] == before[a]);
            } else {
                assert(after[i] == before[a] && after[j] == before[b]);
            }
        }
    }
}

/// In a planned build every dependency points downward, to something that can be linked: to a unit
/// of no higher layer, built for the same target, that is no loadable module. A module depends on
/// nothing above `core` and on no architecture unit, which only the kernel and the architecture
/// itself may name.
pub proof fn dependencies_point_downward(units: Seq<Node>, o: resolve::Outcome, i: int, k: int)
    requires
        planned(units, o) is Ok,
        0 <= i < planned(units, o)->Ok_0.len(),
        0 <= k < planned(units, o)->Ok_0[i].deps.len(),
    ensures
        ({
            let out = planned(units, o)->Ok_0;
            let u = out[i];
            exists|j: int|
                {
                    let dep = #[trigger] out[j];
                    &&& 0 <= j < i
                    &&& dep.name == u.deps[k]
                    &&& rank_of(dep.layer)->0 <= rank_of(u.layer)->0
                    &&& dep.target is None
                    &&& dep.kind != Kind::Module
                    &&& u.kind == Kind::Module ==> rank_of(dep.layer)->0 <= 4 && dep.layer != "arch"@
                    &&& dep.layer == "arch"@ ==> u.layer == "kernel"@ || u.layer == "arch"@
                }
        }),
{
    let on = active(units, o, units.len())->Ok_0;
    let sorted = by_name(on, on.len());
    let g = links(sorted);
    let out = planned(units, o)->Ok_0;
    let idx = order::ordered(g)->Ok_0;
    planned_links_are_closed(on);
    order::ordered_graphs_are_in_order(g);
    let at = idx[i];
    assert(out[i] == sorted[at]);
    dependencies_are_found(on, at, k);
    assert(idx.subrange(0, i).contains(g[at][k]));
    let j = choose|j: int| 0 <= j < i && idx.subrange(0, i)[j] == g[at][k];
    assert(idx[j] == g[at][k]);
    assert(g[at][k] == place(sorted, sorted[at].deps[k], 0)->0);
    assert(out[j] == sorted[g[at][k]]);
}

} // verus!
