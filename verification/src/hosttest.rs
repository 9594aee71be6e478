//! Host-side testing.
//!
//! Kernel crates that do not touch hardware are compiled for the host and run with the ordinary
//! test harness. A unit opts in with `host-tests = true` in its manifest: a claim that its code
//! does not need real hardware.

use vstd::prelude::*;
use vstd::string::*;

use crate::build;
use crate::bytes;
use crate::graph;
use crate::graph::Unit;
use crate::text;

verus! {

/// What came of the tests.
#[derive(Clone, Copy, Debug, PartialEq, Eq, Structural)]
pub struct Summary {
    pub units: usize,
    pub passed: usize,
    pub failed: usize,
}

impl Summary {
    pub fn new() -> (r: Summary)
        ensures
            r == (Summary { units: 0, passed: 0, failed: 0 }),
    {
        Summary { units: 0, passed: 0, failed: 0 }
    }

    /// Count a unit whose tests have run.
    pub fn count(&mut self, ok: bool)
        requires
            old(self).units < usize::MAX,
            old(self).passed < usize::MAX,
            old(self).failed < usize::MAX,
        ensures
            final(self).units == old(self).units + 1,
            final(self).passed == old(self).passed + if ok {
                1int
            } else {
                0
            },
            final(self).failed == old(self).failed + if ok {
                0int
            } else {
                1
            },
    {
        self.units += 1;
        if ok {
            self.passed += 1;
        } else {
            self.failed += 1;
        }
    }
}

/// What is the same for every unit that is tested.
pub struct HostBuild {
    pub root: String,
    pub out: String,
    pub cfgs: Vec<String>,
    pub check_cfgs: Vec<String>,
}

/// Arguments shared by host libraries and host test binaries.
///
/// There is no `--target`, so this builds for the host and links against its `std`; and panics
/// unwind, because the test harness reports a failing test by unwinding.
pub open spec fn common_args(b: HostBuild) -> Seq<Seq<char>> {
    seq!["--edition"@, "2024"@, "-C"@, "debuginfo=2"@] + build::flagged(
        "--cfg"@,
        text::views(b.cfgs@),
        b.cfgs@.len(),
    ) + text::views(b.check_cfgs@) + seq!["--remap-path-prefix"@, b.root@ + "=/kintane"@]
}

/// A list of names and paths.
pub open spec fn paths_of(v: Seq<(String, String)>) -> Seq<(Seq<char>, Seq<char>)> {
    v.map_values(|p: (String, String)| (p.0@, p.1@))
}

/// The path under `name`, from `i` on.
pub open spec fn path_of(paths: Seq<(Seq<char>, Seq<char>)>, name: Seq<char>, i: int) -> Option<Seq<char>>
    decreases paths.len() - i,
{
    if i < 0 || i >= paths.len() {
        None
    } else if paths[i].0 == name {
        Some(paths[i].1)
    } else {
        path_of(paths, name, i + 1)
    }
}

/// How the first `n` dependencies are named to the compiler: those that are built.
pub open spec fn deps_args(paths: Seq<(Seq<char>, Seq<char>)>, deps: Seq<Seq<char>>, n: nat) -> Seq<Seq<char>>
    decreases n,
{
    if n == 0 {
        seq![]
    } else {
        let before = deps_args(paths, deps, (n - 1) as nat);
        match path_of(paths, deps[n - 1], 0) {
            Some(p) => before.push("--extern"@).push(build::crate_name(deps[n - 1]) + "="@ + p),
            None => before,
        }
    }
}

/// How everything that a unit may name is named to the compiler.
pub open spec fn named_args(b: HostBuild, u: graph::Node, paths: Seq<(Seq<char>, Seq<char>)>) -> Seq<Seq<char>> {
    deps_args(paths, u.deps, u.deps.len()) + (match path_of(paths, "kconfig"@, 0) {
        Some(p) => seq!["--extern"@, "kconfig="@ + p],
        None => seq![],
    }) + seq!["-L"@, b.out@]
}

/// The arguments for a unit as a library.
pub open spec fn rlib_args_of(b: HostBuild, u: graph::Node, paths: Seq<(Seq<char>, Seq<char>)>) -> Seq<Seq<char>> {
    common_args(b) + seq!["--crate-type"@, "rlib"@, "--crate-name"@, build::crate_name(u.name)] + named_args(b, u, paths)
        + seq![
        graph::below(u.dir, u.root),
        "-o"@,
        graph::below(b.out@, "lib"@ + build::crate_name(u.name) + ".rlib"@),
    ]
}

/// The arguments for a unit's tests.
pub open spec fn test_args_of(b: HostBuild, u: graph::Node, paths: Seq<(Seq<char>, Seq<char>)>) -> Seq<Seq<char>> {
    common_args(b) + seq!["--test"@, "--crate-name"@, build::crate_name(u.name)] + named_args(b, u, paths) + seq![
        graph::below(u.dir, u.root),
        "-o"@,
        graph::below(b.out@, "test-"@ + build::crate_name(u.name)),
    ]
}

fn push_owned(v: &mut Vec<String>, s: String)
    ensures
        text::views(final(v)@) == text::views(old(v)@).push(s@),
{
    let ghost before = text::views(v@);
    let ghost added = s@;
    v.push(s);
    assert(text::views(v@) =~= before.push(added));
}

fn find_path<'a>(paths: &'a Vec<(String, String)>, name: &str) -> (r: Option<&'a str>)
    ensures
        match r {
            Some(p) => path_of(paths_of(paths@), name@, 0) == Some(p@),
            None => path_of(paths_of(paths@), name@, 0) == None::<Seq<char>>,
        },
{
    let mut i: usize = 0;
    while i < paths.len()
        invariant
            i <= paths@.len(),
            path_of(paths_of(paths@), name@, 0) == path_of(paths_of(paths@), name@, i as int),
        decreases paths@.len() - i,
    {
        assert(paths_of(paths@)[i as int] == (paths@[i as int].0@, paths@[i as int].1@));
        if text::same(paths[i].0.as_str(), name) {
            return Some(paths[i].1.as_str());
        }
        i += 1;
    }
    None
}

impl HostBuild {
    /// Arguments shared by host libraries and host test binaries.
    pub fn common(&self) -> (r: Vec<String>)
        ensures
            text::views(r@) == common_args(*self),
    {
        let mut a: Vec<String> = Vec::new();
        assert(text::views(a@) =~= seq![]);
        text::push_text(&mut a, "--edition");
        text::push_text(&mut a, "2024");
        text::push_text(&mut a, "-C");
        text::push_text(&mut a, "debuginfo=2");
        let ghost before = text::views(a@);
        let ghost list = text::views(self.cfgs@);
        let mut i: usize = 0;
        assert(text::views(a@) =~= before + build::flagged("--cfg"@, list, 0));
        while i < self.cfgs.len()
            invariant
                i <= self.cfgs@.len(),
                list == text::views(self.cfgs@),
                text::views(a@) == before + build::flagged("--cfg"@, list, i as nat),
            decreases self.cfgs@.len() - i,
        {
            assert(list[i as int] == self.cfgs@[i as int]@);
            text::push_text(&mut a, "--cfg");
            text::push_text(&mut a, self.cfgs[i].as_str());
            assert(text::views(a@) =~= before + build::flagged("--cfg"@, list, (i + 1) as nat));
            i += 1;
        }
        text::push_texts(&mut a, &self.check_cfgs);
        let ghost before = text::views(a@);
        text::push_text(&mut a, "--remap-path-prefix");
        let mut root = self.root.clone();
        root.append("=/kintane");
        push_owned(&mut a, root);
        assert(text::views(a@) =~= before + seq!["--remap-path-prefix"@, self.root@ + "=/kintane"@]);
        a
    }

    /// Name everything that a unit may use.
    pub fn externs(&self, args: &mut Vec<String>, unit: &Unit, deps: &Vec<(String, String)>)
        ensures
            text::views(final(args)@) == text::views(old(args)@) + named_args(*self, unit@, paths_of(deps@)),
    {
        let ghost start = text::views(args@);
        let ghost paths = paths_of(deps@);
        let mut i: usize = 0;
        assert(text::views(args@) =~= start + deps_args(paths, unit@.deps, 0));
        while i < unit.deps.len()
            invariant
                i <= unit.deps@.len(),
                paths == paths_of(deps@),
                text::views(args@) == start + deps_args(paths, unit@.deps, i as nat),
            decreases unit.deps@.len() - i,
        {
            let d = unit.deps[i].as_str();
            assert(unit@.deps[i as int] == d@);
            if let Some(p) = find_path(deps, d) {
                text::push_text(args, "--extern");
                push_owned(args, text::three(text::exchange(d, '-', '_').as_str(), "=", p));
            }
            assert(text::views(args@) =~= start + deps_args(paths, unit@.deps, (i + 1) as nat));
            i += 1;
        }
        let ghost before = text::views(args@);
        if let Some(p) = find_path(deps, "kconfig") {
            text::push_text(args, "--extern");
            let mut k = "kconfig=".to_owned();
            k.append(p);
            push_owned(args, k);
        }
        text::push_text(args, "-L");
        text::push_text(args, self.out.as_str());
        assert(text::views(args@) =~= start + named_args(*self, unit@, paths));
    }

    /// The arguments for a unit as a library, and where it goes.
    pub fn rlib_args(&self, unit: &Unit, deps: &Vec<(String, String)>) -> (r: Vec<String>)
        ensures
            text::views(r@) == rlib_args_of(*self, unit@, paths_of(deps@)),
    {
        let name = text::exchange(unit.name.as_str(), '-', '_');
        let mut a = self.common();
        let ghost before = text::views(a@);
        text::push_text(&mut a, "--crate-type");
        text::push_text(&mut a, "rlib");
        text::push_text(&mut a, "--crate-name");
        text::push_text(&mut a, name.as_str());
        assert(text::views(a@) =~= before + seq!["--crate-type"@, "rlib"@, "--crate-name"@, name@]);
        self.externs(&mut a, unit, deps);
        let ghost before = text::views(a@);
        push_owned(&mut a, unit.root_path());
        text::push_text(&mut a, "-o");
        push_owned(&mut a, graph::join_path(self.out.as_str(), text::three("lib", name.as_str(), ".rlib").as_str()));
        assert(text::views(a@) =~= before + seq![
            graph::below(unit@.dir, unit@.root),
            "-o"@,
            graph::below(self.out@, "lib"@ + name@ + ".rlib"@),
        ]);
        a
    }

    /// The arguments for a unit's tests, and where they go.
    pub fn test_args(&self, unit: &Unit, deps: &Vec<(String, String)>) -> (r: Vec<String>)
        ensures
            text::views(r@) == test_args_of(*self, unit@, paths_of(deps@)),
    {
        let name = text::exchange(unit.name.as_str(), '-', '_');
        let mut a = self.common();
        let ghost before = text::views(a@);
        text::push_text(&mut a, "--test");
        text::push_text(&mut a, "--crate-name");
        text::push_text(&mut a, name.as_str());
        assert(text::views(a@) =~= before + seq!["--test"@, "--crate-name"@, name@]);
        self.externs(&mut a, unit, deps);
        let ghost before = text::views(a@);
        push_owned(&mut a, unit.root_path());
        text::push_text(&mut a, "-o");
        let mut file = "test-".to_owned();
        file.append(name.as_str());
        push_owned(&mut a, graph::join_path(self.out.as_str(), file.as_str()));
        assert(text::views(a@) =~= before + seq![
            graph::below(unit@.dir, unit@.root),
            "-o"@,
            graph::below(self.out@, "test-"@ + name@),
        ]);
        a
    }
}

// ---- what to test ----

/// Whether a unit's tests are asked for.
pub open spec fn asked(u: graph::Node, filter: Option<Seq<char>>) -> bool {
    u.host_tests && match filter {
        Some(f) => bytes::find(u.name, f, 0) is Some,
        None => true,
    }
}

/// The numbers of the units, among the first `n`, whose tests are asked for.
pub open spec fn wanted_of(units: Seq<graph::Node>, filter: Option<Seq<char>>, n: nat) -> Seq<int>
    decreases n,
{
    if n == 0 {
        seq![]
    } else if asked(units[n - 1], filter) {
        wanted_of(units, filter, (n - 1) as nat).push(n - 1)
    } else {
        wanted_of(units, filter, (n - 1) as nat)
    }
}

/// Why no tests are run.
pub open spec fn nothing_wanted(filter: Option<Seq<char>>) -> Seq<char> {
    match filter {
        Some(f) => "no host-testable unit matches `"@ + f + "`"@,
        None => "no unit declares `host-tests = true`"@,
    }
}

/// Which units to run tests for, by number.
pub fn wanted(ordered: &Vec<Unit>, filter: Option<&str>) -> (r: Result<Vec<usize>, String>)
    ensures
        ({
            let f = match filter {
                Some(s) => Some(s@),
                None => None,
            };
            let w = wanted_of(graph::nodes(ordered@), f, ordered@.len());
            match r {
                Ok(v) => bytes::places_of(v@) == w && w.len() > 0 && forall|k: int|
                    0 <= k < v@.len() ==> #[trigger] v@[k] < ordered@.len(),
                Err(e) => w.len() == 0 && e@ == nothing_wanted(f),
            }
        }),
{
    let ghost f = match filter {
        Some(s) => Some(s@),
        None => None,
    };
    let ghost all = graph::nodes(ordered@);
    let mut out: Vec<usize> = Vec::new();
    let mut i: usize = 0;
    assert(bytes::places_of(out@) =~= seq![]);
    while i < ordered.len()
        invariant
            i <= ordered@.len(),
            all == graph::nodes(ordered@),
            f == match filter {
                Some(s) => Some(s@),
                None => None,
            },
            bytes::places_of(out@) == wanted_of(all, f, i as nat),
            forall|k: int| 0 <= k < out@.len() ==> #[trigger] out@[k] < ordered@.len(),
        decreases ordered@.len() - i,
    {
        let u = &ordered[i];
        assert(all[i as int] == u@);
        let matching: bool = match filter {
            Some(s) => text::find_text(
                text::chars(u.name.as_str()).as_slice(),
                text::chars(s).as_slice(),
            ).is_some(),
            None => true,
        };
        if u.host_tests && matching {
            let ghost before = bytes::places_of(out@);
            out.push(i);
            assert(bytes::places_of(out@) =~= before.push(i as int));
        }
        i += 1;
    }
    if out.len() == 0 {
        return Err(
            match filter {
                Some(s) => text::three("no host-testable unit matches `", s, "`"),
                None => "no unit declares `host-tests = true`".to_owned(),
            },
        );
    }
    Ok(out)
}

/// Whether everything that a unit depends on, as far as it is there, stands before it.
pub open spec fn in_order(all: Seq<graph::Node>) -> bool {
    forall|i: int, k: int|
        0 <= i < all.len() && 0 <= k < all[i].deps.len() && graph::place(all, #[trigger] all[i].deps[k], 0) is Some
            ==> graph::place(all, all[i].deps[k], 0)->0 < i
}

/// Whether every unit ranks above what it depends on, as far as that is there.
pub open spec fn ranked(all: Seq<graph::Node>, ranks: Seq<nat>) -> bool {
    &&& ranks.len() == all.len()
    &&& forall|i: int, k: int|
        0 <= i < all.len() && 0 <= k < all[i].deps.len() && graph::place(all, #[trigger] all[i].deps[k], 0) is Some
            ==> ranks[graph::place(all, all[i].deps[k], 0)->0] < ranks[i]
}

/// Whether no unit depends on itself, directly or through others.
pub open spec fn acyclic(all: Seq<graph::Node>) -> bool {
    exists|ranks: Seq<nat>| ranked(all, ranks)
}

/// Ranks for units that do not depend on themselves.
pub open spec fn ranks_of(all: Seq<graph::Node>) -> Seq<nat> {
    choose|ranks: Seq<nat>| ranked(all, ranks)
}

/// A number above the first `n` ranks.
pub open spec fn above(ranks: Seq<nat>, n: nat) -> nat
    decreases n,
{
    if n == 0 {
        0
    } else if ranks[n - 1] >= above(ranks, (n - 1) as nat) {
        ranks[n - 1] + 1
    } else {
        above(ranks, (n - 1) as nat)
    }
}

proof fn above_is_above(ranks: Seq<nat>, n: nat, i: int)
    requires
        0 <= i < n <= ranks.len(),
    ensures
        ranks[i] < above(ranks, n),
    decreases n,
{
    if i < n - 1 {
        above_is_above(ranks, (n - 1) as nat, i);
    }
}

/// `out`, then everything that the unit depends on and is not yet there, each after what it
/// depends on itself, then the unit. Only units that rank below `limit` are followed.
pub open spec fn collected(
    all: Seq<graph::Node>,
    ranks: Seq<nat>,
    out: Seq<graph::Node>,
    u: graph::Node,
    limit: nat,
) -> Seq<graph::Node>
    decreases limit, 1int, 0int,
{
    let before = collected_deps(all, ranks, out, u, 0, limit);
    if graph::place(before, u.name, 0) is Some {
        before
    } else {
        before.push(u)
    }
}

/// `out`, then what the unit's dependencies from `k` on add.
pub open spec fn collected_deps(
    all: Seq<graph::Node>,
    ranks: Seq<nat>,
    out: Seq<graph::Node>,
    u: graph::Node,
    k: int,
    limit: nat,
) -> Seq<graph::Node>
    decreases limit, 0int, u.deps.len() - k,
{
    if k < 0 || k >= u.deps.len() {
        out
    } else {
        let next = match graph::place(all, u.deps[k], 0) {
            Some(j) => if ranks[j] < limit && graph::place(out, all[j].name, 0) is None {
                collected(all, ranks, out, all[j], ranks[j])
            } else {
                out
            },
            None => out,
        };
        collected_deps(all, ranks, next, u, k + 1, limit)
    }
}

/// `out`, then everything that the unit depends on and is not yet there, each after what it
/// depends on itself, then the unit.
pub open spec fn gathered(all: Seq<graph::Node>, out: Seq<graph::Node>, u: graph::Node) -> Seq<graph::Node> {
    collected(all, ranks_of(all), out, u, above(ranks_of(all), all.len()))
}

/// `out`, then what the unit's dependencies from `k` on add, whatever their ranks are.
pub open spec fn gathered_deps(all: Seq<graph::Node>, out: Seq<graph::Node>, u: graph::Node, k: int) -> Seq<graph::Node>
    decreases u.deps.len() - k,
{
    if k < 0 || k >= u.deps.len() {
        out
    } else {
        let next = match graph::place(all, u.deps[k], 0) {
            Some(j) => if graph::place(out, all[j].name, 0) is None {
                gathered(all, out, all[j])
            } else {
                out
            },
            None => out,
        };
        gathered_deps(all, next, u, k + 1)
    }
}

/// Whether what a unit depends on, as far as it is there, ranks below `limit`.
pub open spec fn deps_below(all: Seq<graph::Node>, ranks: Seq<nat>, u: graph::Node, limit: nat) -> bool {
    forall|k: int|
        0 <= k < u.deps.len() && graph::place(all, #[trigger] u.deps[k], 0) is Some ==> ranks[graph::place(
            all,
            u.deps[k],
            0,
        )->0] < limit
}

proof fn ranks_are_below(all: Seq<graph::Node>, u: graph::Node)
    requires
        acyclic(all),
    ensures
        ranked(all, ranks_of(all)),
        deps_below(all, ranks_of(all), u, above(ranks_of(all), all.len())),
{
    let ranks = ranks_of(all);
    assert forall|k: int|
        0 <= k < u.deps.len() && graph::place(all, #[trigger] u.deps[k], 0) is Some implies ranks[graph::place(
        all,
        u.deps[k],
        0,
    )->0] < above(ranks, all.len()) by {
        graph::places_are_inside(all, u.deps[k], 0);
        above_is_above(ranks, all.len(), graph::place(all, u.deps[k], 0)->0);
    }
}

proof fn limits_do_not_matter(
    all: Seq<graph::Node>,
    ranks: Seq<nat>,
    out: Seq<graph::Node>,
    u: graph::Node,
    k: int,
    limit: nat,
    other: nat,
)
    requires
        deps_below(all, ranks, u, limit),
        deps_below(all, ranks, u, other),
        0 <= k,
    ensures
        collected_deps(all, ranks, out, u, k, limit) == collected_deps(all, ranks, out, u, k, other),
    decreases u.deps.len() - k,
{
    if k < u.deps.len() {
        let next = match graph::place(all, u.deps[k], 0) {
            Some(j) => if ranks[j] < limit && graph::place(out, all[j].name, 0) is None {
                collected(all, ranks, out, all[j], ranks[j])
            } else {
                out
            },
            None => out,
        };
        assert(graph::place(all, u.deps[k], 0) is Some ==> ranks[graph::place(all, u.deps[k], 0)->0] < other);
        limits_do_not_matter(all, ranks, next, u, k + 1, limit, other);
    }
}

proof fn gathered_deps_are_collected(all: Seq<graph::Node>, out: Seq<graph::Node>, u: graph::Node, k: int)
    requires
        acyclic(all),
        0 <= k,
    ensures
        gathered_deps(all, out, u, k) == collected_deps(
            all,
            ranks_of(all),
            out,
            u,
            k,
            above(ranks_of(all), all.len()),
        ),
    decreases u.deps.len() - k,
{
    let ranks = ranks_of(all);
    let top = above(ranks, all.len());
    ranks_are_below(all, u);
    if k < u.deps.len() {
        let next = match graph::place(all, u.deps[k], 0) {
            Some(j) => if graph::place(out, all[j].name, 0) is None {
                gathered(all, out, all[j])
            } else {
                out
            },
            None => out,
        };
        if let Some(j) = graph::place(all, u.deps[k], 0) {
            graph::places_are_inside(all, u.deps[k], 0);
            let d = all[j];
            ranks_are_below(all, d);
            assert(deps_below(all, ranks, d, ranks[j]));
            limits_do_not_matter(all, ranks, out, d, 0, top, ranks[j]);
            assert(collected(all, ranks, out, d, top) == collected(all, ranks, out, d, ranks[j])) by {
                reveal_with_fuel(collected, 2);
            }
            assert(ranks[j] < top);
        }
        gathered_deps_are_collected(all, next, u, k + 1);
        assert(collected_deps(all, ranks, out, u, k, top) == collected_deps(all, ranks, next, u, k + 1, top)) by {
            reveal_with_fuel(collected_deps, 2);
        }
    }
}

/// Gathering goes through the dependencies in turn, gathers each that is not yet there, and then
/// adds the unit, if it is not there by then.
pub proof fn gathering_goes_through_dependencies(all: Seq<graph::Node>, out: Seq<graph::Node>, u: graph::Node)
    requires
        acyclic(all),
    ensures
        ({
            let before = gathered_deps(all, out, u, 0);
            gathered(all, out, u) == if graph::place(before, u.name, 0) is Some {
                before
            } else {
                before.push(u)
            }
        }),
{
    gathered_deps_are_collected(all, out, u, 0);
}

/// Units that stand in order do not depend on themselves.
pub proof fn ordered_units_are_acyclic(all: Seq<graph::Node>)
    requires
        in_order(all),
    ensures
        acyclic(all),
{
    let ranks = Seq::new(all.len(), |i: int| i as nat);
    assert forall|i: int, k: int|
        0 <= i < all.len() && 0 <= k < all[i].deps.len() && graph::place(all, #[trigger] all[i].deps[k], 0)
            is Some implies ranks[graph::place(all, all[i].deps[k], 0)->0] < ranks[i] by {
        graph::places_are_inside(all, all[i].deps[k], 0);
    }
    assert(ranked(all, ranks));
}

/// The units that a list of references leads to.
pub open spec fn referred(v: Seq<&Unit>) -> Seq<graph::Node> {
    v.map_values(|u: &Unit| u@)
}

fn is_listed(out: &Vec<&Unit>, name: &str) -> (r: bool)
    ensures
        r == (graph::place(referred(out@), name@, 0) is Some),
{
    let mut i: usize = 0;
    while i < out.len()
        invariant
            i <= out@.len(),
            graph::place(referred(out@), name@, 0) == graph::place(referred(out@), name@, i as int),
        decreases out@.len() - i,
    {
        assert(referred(out@)[i as int].name == out@[i as int].name@);
        if text::same(out[i].name.as_str(), name) {
            return true;
        }
        i += 1;
    }
    false
}

fn collect_from<'a>(
    unit: &'a Unit,
    all: &'a Vec<Unit>,
    out: &mut Vec<&'a Unit>,
    Ghost(ranks): Ghost<Seq<nat>>,
    Ghost(limit): Ghost<nat>,
)
    requires
        ranked(graph::nodes(all@), ranks),
        deps_below(graph::nodes(all@), ranks, unit@, limit),
    ensures
        referred(final(out)@) == collected(graph::nodes(all@), ranks, referred(old(out)@), unit@, limit),
    decreases limit,
{
    let ghost nodes = graph::nodes(all@);
    let ghost start = referred(out@);
    let mut k: usize = 0;
    while k < unit.deps.len()
        invariant
            k <= unit.deps@.len(),
            nodes == graph::nodes(all@),
            ranked(nodes, ranks),
            deps_below(nodes, ranks, unit@, limit),
            collected_deps(nodes, ranks, start, unit@, 0, limit) == collected_deps(
                nodes,
                ranks,
                referred(out@),
                unit@,
                k as int,
                limit,
            ),
        decreases unit.deps@.len() - k,
    {
        assert(unit@.deps[k as int] == unit.deps@[k as int]@);
        if let Some(j) = graph::find_unit(all, unit.deps[k].as_str()) {
            assert(nodes[j as int] == all@[j as int]@);
            assert(ranks[j as int] < limit);
            if !is_listed(out, all[j].name.as_str()) {
                assert(deps_below(nodes, ranks, nodes[j as int], ranks[j as int]));
                collect_from(&all[j], all, out, Ghost(ranks), Ghost(ranks[j as int]));
            }
        }
        k += 1;
    }
    if !is_listed(out, unit.name.as_str()) {
        let ghost before = referred(out@);
        out.push(unit);
        assert(referred(out@) =~= before.push(unit@));
    }
}

/// Depth-first over `unit`'s dependencies, appending each before the unit itself. No unit of `all`
/// may depend on itself.
pub fn collect_deps<'a>(unit: &'a Unit, all: &'a Vec<Unit>, out: &mut Vec<&'a Unit>)
    requires
        acyclic(graph::nodes(all@)),
    ensures
        referred(final(out)@) == gathered(graph::nodes(all@), referred(old(out)@), unit@),
{
    let ghost nodes = graph::nodes(all@);
    proof {
        ranks_are_below(nodes, unit@);
    }
    collect_from(unit, all, out, Ghost(ranks_of(nodes)), Ghost(above(ranks_of(nodes), nodes.len())));
}

/// Everything that the first `n` of the units at `wanted` need, each after what it depends on
/// itself.
pub open spec fn needed_of(all: Seq<graph::Node>, wanted: Seq<int>, n: nat) -> Seq<graph::Node>
    decreases n,
{
    if n == 0 {
        seq![]
    } else {
        gathered(all, needed_of(all, wanted, (n - 1) as nat), all[wanted[n - 1]])
    }
}

/// Everything that the units at `wanted` need, and they.
pub fn needed<'a>(all: &'a Vec<Unit>, wanted: &Vec<usize>) -> (r: Vec<&'a Unit>)
    requires
        acyclic(graph::nodes(all@)),
        forall|k: int| 0 <= k < wanted@.len() ==> #[trigger] wanted@[k] < all@.len(),
    ensures
        referred(r@) == needed_of(graph::nodes(all@), bytes::places_of(wanted@), wanted@.len()),
{
    let mut out: Vec<&'a Unit> = Vec::new();
    let mut i: usize = 0;
    assert(referred(out@) =~= seq![]);
    while i < wanted.len()
        invariant
            i <= wanted@.len(),
            acyclic(graph::nodes(all@)),
            forall|k: int| 0 <= k < wanted@.len() ==> #[trigger] wanted@[k] < all@.len(),
            referred(out@) == needed_of(graph::nodes(all@), bytes::places_of(wanted@), i as nat),
        decreases wanted@.len() - i,
    {
        assert(bytes::places_of(wanted@)[i as int] == wanted@[i as int]);
        assert(graph::nodes(all@)[wanted@[i as int] as int] == all@[wanted@[i as int] as int]@);
        collect_deps(&all[wanted[i]], all, &mut out);
        i += 1;
    }
    out
}

/// Whether everything that a unit of `out` depends on, as far as it is in `all`, stands before it.
pub open spec fn settled(all: Seq<graph::Node>, out: Seq<graph::Node>) -> bool {
    forall|i: int, k: int|
        0 <= i < out.len() && 0 <= k < out[i].deps.len() && graph::place(all, #[trigger] out[i].deps[k], 0) is Some
            ==> graph::place(out.subrange(0, i), out[i].deps[k], 0) is Some
}

proof fn places_stay(a: Seq<graph::Node>, b: Seq<graph::Node>, name: Seq<char>)
    requires
        a.is_prefix_of(b),
        graph::place(a, name, 0) is Some,
    ensures
        graph::place(b, name, 0) is Some,
{
    graph::places_are_inside(a, name, 0);
    graph::places_are_inside(b, name, 0);
    let i = graph::place(a, name, 0)->0;
    assert(b[i] == a[i]);
}

proof fn collecting_settles(
    all: Seq<graph::Node>,
    ranks: Seq<nat>,
    out: Seq<graph::Node>,
    u: graph::Node,
    limit: nat,
)
    requires
        ranked(all, ranks),
        settled(all, out),
        deps_below(all, ranks, u, limit),
    ensures
        settled(all, collected(all, ranks, out, u, limit)),
        out.is_prefix_of(collected(all, ranks, out, u, limit)),
        graph::place(collected(all, ranks, out, u, limit), u.name, 0) is Some,
    decreases limit, 1int, 0int,
{
    collecting_deps_settles(all, ranks, out, u, 0, limit);
    let before = collected_deps(all, ranks, out, u, 0, limit);
    if graph::place(before, u.name, 0) is None {
        let after = before.push(u);
        assert forall|i: int, k: int|
            0 <= i < after.len() && 0 <= k < after[i].deps.len() && graph::place(all, #[trigger] after[i].deps[k], 0)
                is Some implies graph::place(after.subrange(0, i), after[i].deps[k], 0) is Some by {
            if i < before.len() {
                assert(after[i] == before[i]);
                assert(after.subrange(0, i) =~= before.subrange(0, i));
            } else {
                assert(after.subrange(0, i) =~= before);
            }
        }
        graph::places_are_inside(after, u.name, 0);
        assert(after[before.len() as int].name == u.name);
    }
}

proof fn collecting_deps_settles(
    all: Seq<graph::Node>,
    ranks: Seq<nat>,
    out: Seq<graph::Node>,
    u: graph::Node,
    k: int,
    limit: nat,
)
    requires
        ranked(all, ranks),
        settled(all, out),
        0 <= k <= u.deps.len(),
        deps_below(all, ranks, u, limit),
    ensures
        settled(all, collected_deps(all, ranks, out, u, k, limit)),
        out.is_prefix_of(collected_deps(all, ranks, out, u, k, limit)),
        forall|j: int|
            k <= j < u.deps.len() && graph::place(all, #[trigger] u.deps[j], 0) is Some ==> graph::place(
                collected_deps(all, ranks, out, u, k, limit),
                u.deps[j],
                0,
            ) is Some,
    decreases limit, 0int, u.deps.len() - k,
{
    if k < u.deps.len() {
        let next = match graph::place(all, u.deps[k], 0) {
            Some(j) => if ranks[j] < limit && graph::place(out, all[j].name, 0) is None {
                collected(all, ranks, out, all[j], ranks[j])
            } else {
                out
            },
            None => out,
        };
        if let Some(j) = graph::place(all, u.deps[k], 0) {
            graph::places_are_inside(all, u.deps[k], 0);
            if graph::place(out, all[j].name, 0) is None {
                assert(deps_below(all, ranks, all[j], ranks[j]));
                collecting_settles(all, ranks, out, all[j], ranks[j]);
            }
            assert(graph::place(next, u.deps[k], 0) is Some);
        }
        collecting_deps_settles(all, ranks, next, u, k + 1, limit);
        let last = collected_deps(all, ranks, next, u, k + 1, limit);
        if graph::place(all, u.deps[k], 0) is Some {
            places_stay(next, last, u.deps[k]);
        }
    }
}

/// Collecting the dependencies of units, one after the other, gives a list in which everything
/// stands after what it depends on, and each of those units is there.
pub proof fn collected_units_are_in_order(all: Seq<graph::Node>, wanted: Seq<int>, n: nat)
    requires
        acyclic(all),
        n <= wanted.len(),
        forall|k: int| 0 <= k < wanted.len() ==> 0 <= #[trigger] wanted[k] < all.len(),
    ensures
        settled(all, needed_of(all, wanted, n)),
        forall|k: int|
            0 <= k < n ==> graph::place(needed_of(all, wanted, n), all[#[trigger] wanted[k]].name, 0) is Some,
    decreases n,
{
    if n > 0 {
        let before = needed_of(all, wanted, (n - 1) as nat);
        let u = all[wanted[n - 1]];
        collected_units_are_in_order(all, wanted, (n - 1) as nat);
        ranks_are_below(all, u);
        collecting_settles(all, ranks_of(all), before, u, above(ranks_of(all), all.len()));
        assert forall|k: int| 0 <= k < n implies graph::place(
            needed_of(all, wanted, n),
            all[#[trigger] wanted[k]].name,
            0,
        ) is Some by {
            if k < n - 1 {
                places_stay(before, needed_of(all, wanted, n), all[wanted[k]].name);
            }
        }
    }
}

/// In a planned build everything stands after what it depends on, so that no unit depends on
/// itself and dependencies can be collected.
pub proof fn planned_builds_are_in_order(units: Seq<graph::Node>, o: crate::kcfg::resolve::Outcome)
    requires
        graph::planned(units, o) is Ok,
    ensures
        in_order(graph::planned(units, o)->Ok_0),
        acyclic(graph::planned(units, o)->Ok_0),
{
    let out = graph::planned(units, o)->Ok_0;
    graph::dependencies_come_first(units, o);
    assert forall|i: int, k: int|
        0 <= i < out.len() && 0 <= k < out[i].deps.len() && graph::place(out, #[trigger] out[i].deps[k], 0)
            is Some implies graph::place(out, out[i].deps[k], 0)->0 < i by {
        let d = out[i].deps[k];
        let part = out.subrange(0, i);
        assert(graph::place(part, d, 0) is Some);
        graph::places_are_inside(part, d, 0);
        let j = graph::place(part, d, 0)->0;
        assert(part[j] == out[j]);
        graph::first_of_name(out, d, 0);
    }
    ordered_units_are_acyclic(out);
}

} // verus!
