//! The portability check.
//!
//! Every unit that declares `host-tests = true` claims that its code does not need real hardware.
//! The host tests are half of that claim. The other half is whether the code compiles for the
//! machines that no port covers yet: a host has 64-bit atomics with compare-and-swap, so code that
//! uses them passes every host test and still does not build for a core without. So those units
//! are compiled, with warnings denied, for built-in targets that stand in for such machines.

use vstd::prelude::*;
use vstd::string::*;

use crate::build::{Build, Target};
use crate::bytes;
use crate::graph;
use crate::graph::Unit;
use crate::hosttest;
use crate::text;

verus! {

/// A machine that the portable units must compile for.
pub struct Machine {
    /// A target built into the pinned compiler.
    pub triple: &'static str,
    /// The configuration request that describes this machine, so that the generated constants
    /// match the target.
    pub symbol: &'static str,
    pub value: &'static str,
    /// What this machine lacks that the other ports have.
    pub why: &'static str,
}

/// The machines there are.
pub fn machines() -> (r: Vec<Machine>)
    ensures
        r@.len() == 3,
        r@[0].triple@ == "riscv32i-unknown-none-elf"@ && r@[0].symbol@ == "ARCH_RISCV32"@ && r@[0].value@ == "y"@,
        r@[0].why@ == "no atomics of any width, so compare-and-swap is unavailable"@,
        r@[1].triple@ == "riscv32imac-unknown-none-elf"@ && r@[1].symbol@ == "ARCH_RISCV32"@ && r@[1].value@ == "y"@,
        r@[1].why@ == "compare-and-swap up to 32 bits, but no 64-bit atomics"@,
        r@[2].triple@ == "thumbv7m-none-eabi"@ && r@[2].symbol@ == "ARCH_ARMV7M"@ && r@[2].value@ == "y"@,
        r@[2].why@ == "the tier-1 no-MMU target: 32-bit, MPU only"@,
{
    let mut v: Vec<Machine> = Vec::new();
    v.push(
        Machine {
            triple: "riscv32i-unknown-none-elf",
            symbol: "ARCH_RISCV32",
            value: "y",
            why: "no atomics of any width, so compare-and-swap is unavailable",
        },
    );
    v.push(
        Machine {
            triple: "riscv32imac-unknown-none-elf",
            symbol: "ARCH_RISCV32",
            value: "y",
            why: "compare-and-swap up to 32 bits, but no 64-bit atomics",
        },
    );
    v.push(
        Machine {
            triple: "thumbv7m-none-eabi",
            symbol: "ARCH_ARMV7M",
            value: "y",
            why: "the tier-1 no-MMU target: 32-bit, MPU only",
        },
    );
    v
}

/// What came of the check: how many units were compiled, and those that did not, with the reason.
#[derive(Debug)]
pub struct Report {
    pub checked: usize,
    pub broken: Vec<(String, String)>,
}

/// Whether a unit of that name is broken.
pub open spec fn is_broken(broken: Seq<(String, String)>, name: Seq<char>) -> bool {
    exists|i: int| 0 <= i < broken.len() && (#[trigger] broken[i]).0@ == name
}

/// The first of the first `n` dependencies that is broken.
pub open spec fn broken_dep(broken: Seq<(String, String)>, deps: Seq<Seq<char>>, n: nat) -> Option<Seq<char>>
    decreases n,
{
    if n == 0 {
        None
    } else if broken_dep(broken, deps, (n - 1) as nat) is Some {
        broken_dep(broken, deps, (n - 1) as nat)
    } else if is_broken(broken, deps[n - 1]) {
        Some(deps[n - 1])
    } else {
        None
    }
}

proof fn broken_stays(broken: Seq<(String, String)>, deps: Seq<Seq<char>>, n: nat, m: nat)
    requires
        broken_dep(broken, deps, n) is Some,
        n <= m,
    ensures
        broken_dep(broken, deps, m) == broken_dep(broken, deps, n),
    decreases m,
{
    if n < m {
        broken_stays(broken, deps, n, (m - 1) as nat);
    }
}

impl Report {
    pub fn new() -> (r: Report)
        ensures
            r.checked == 0,
            r.broken@.len() == 0,
    {
        Report { checked: 0, broken: Vec::new() }
    }

    fn breaks(&self, name: &str) -> (r: bool)
        ensures
            r == is_broken(self.broken@, name@),
    {
        let mut i: usize = 0;
        while i < self.broken.len()
            invariant
                i <= self.broken@.len(),
                forall|k: int| 0 <= k < i ==> (#[trigger] self.broken@[k]).0@ != name@,
            decreases self.broken@.len() - i,
        {
            if text::same(self.broken[i].0.as_str(), name) {
                assert(self.broken@[i as int].0@ == name@);
                return true;
            }
            i += 1;
        }
        false
    }

    /// Why a unit need not be tried: something it depends on did not build.
    pub fn blocked(&self, unit: &Unit) -> (r: Option<String>)
        ensures
            match broken_dep(self.broken@, unit@.deps, unit@.deps.len()) {
                Some(d) => r is Some && r->0@ == "depends on `"@ + d + "`, which did not build"@,
                None => r is None,
            },
    {
        let mut i: usize = 0;
        while i < unit.deps.len()
            invariant
                i <= unit.deps@.len(),
                broken_dep(self.broken@, unit@.deps, i as nat) is None,
            decreases unit.deps@.len() - i,
        {
            assert(unit@.deps[i as int] == unit.deps@[i as int]@);
            if self.breaks(unit.deps[i].as_str()) {
                proof {
                    broken_stays(self.broken@, unit@.deps, (i + 1) as nat, unit@.deps.len());
                }
                return Some(text::three("depends on `", unit.deps[i].as_str(), "`, which did not build"));
            }
            i += 1;
        }
        None
    }

    /// Count a unit, and why it did not build if it did not.
    pub fn record(&mut self, unit: &Unit, why: Option<String>)
        requires
            old(self).checked < usize::MAX,
        ensures
            final(self).checked == old(self).checked + 1,
            match why {
                None => final(self).broken@ == old(self).broken@,
                Some(e) => final(self).broken@.len() == old(self).broken@.len() + 1 && final(self).broken@.drop_last()
                    == old(self).broken@ && final(self).broken@.last().0@ == unit@.name && final(self).broken@.last().1@ == e@,
            },
    {
        self.checked = self.checked + 1;
        if let Some(e) = why {
            self.broken.push((unit.name.clone(), e));
            assert(self.broken@.drop_last() =~= old(self).broken@);
        }
    }

    /// How many of the units build, in a line.
    pub fn line(&self) -> (r: String)
        requires
            self.broken@.len() <= self.checked,
        ensures
            r@ == "  "@ + text::decimal(self.checked - self.broken@.len()) + " of "@ + text::decimal(self.checked as int)
                + " units build"@,
    {
        let mut r = "  ".to_owned();
        r.append(text::int_text((self.checked - self.broken.len()) as i128).as_str());
        r.append(" of ");
        r.append(text::int_text(self.checked as i128).as_str());
        r.append(" units build");
        r
    }
}

// ---- what must compile ----

/// Whether a name is where the search begins: that of a host-testable unit, or
/// `compiler_builtins`, which everything needs.
pub open spec fn begins(units: Seq<graph::Node>, name: Seq<char>) -> bool {
    name == "compiler_builtins"@ || exists|i: int|
        0 <= i < units.len() && (#[trigger] units[i]).host_tests && units[i].name == name
}

/// Whether some unit called `a` depends on `b`.
pub open spec fn leads(units: Seq<graph::Node>, a: Seq<char>, b: Seq<char>) -> bool {
    exists|i: int, k: int|
        0 <= i < units.len() && 0 <= k < units[i].deps.len() && units[i].name == a && #[trigger] units[i].deps[k] == b
}

/// Whether a list of names is a chain of dependencies from where the search begins.
pub open spec fn chain(units: Seq<graph::Node>, path: Seq<Seq<char>>) -> bool {
    &&& path.len() > 0
    &&& begins(units, path[0])
    &&& forall|i: int| 0 <= i < path.len() - 1 ==> leads(units, #[trigger] path[i], path[i + 1])
}

/// Whether a unit of that name must compile: a host-testable one depends on it, directly or not.
pub open spec fn needed(units: Seq<graph::Node>, name: Seq<char>) -> bool {
    exists|path: Seq<Seq<char>>| #[trigger] chain(units, path) && path.last() == name
}

/// The units among the first `n` that must compile, in order.
pub open spec fn closure(units: Seq<graph::Node>, n: nat) -> Seq<graph::Node>
    decreases n,
{
    if n == 0 {
        seq![]
    } else if needed(units, units[n - 1].name) {
        closure(units, (n - 1) as nat).push(units[n - 1])
    } else {
        closure(units, (n - 1) as nat)
    }
}

/// Whether the names gathered so far hold everything that those before `i` lead to.
spec fn followed(units: Seq<graph::Node>, names: Seq<Seq<char>>, i: int) -> bool {
    forall|a: int, b: Seq<char>| 0 <= a < i && #[trigger] leads(units, names[a], b) ==> names.contains(b)
}

/// Everything that a name may be.
spec fn pool(units: Seq<graph::Node>, n: nat) -> Seq<Seq<char>>
    decreases n,
{
    if n == 0 {
        seq!["compiler_builtins"@]
    } else {
        pool(units, (n - 1) as nat).push(units[n - 1].name) + units[n - 1].deps
    }
}

proof fn pool_holds(units: Seq<graph::Node>, n: nat, i: int)
    requires
        0 <= i < n <= units.len(),
    ensures
        pool(units, n).contains(units[i].name),
        forall|k: int| 0 <= k < units[i].deps.len() ==> pool(units, n).contains(#[trigger] units[i].deps[k]),
        pool(units, n).contains("compiler_builtins"@),
    decreases n,
{
    let before = pool(units, (n - 1) as nat);
    let all = pool(units, n);
    pool_begins(units, n);
    if i < n - 1 {
        pool_holds(units, (n - 1) as nat, i);
        assert forall|x: Seq<char>| before.contains(x) implies all.contains(x) by {
            let j = choose|j: int| 0 <= j < before.len() && before[j] == x;
            assert(all[j] == x);
        }
    } else {
        assert(all[before.len() as int] == units[i].name);
        assert forall|k: int| 0 <= k < units[i].deps.len() implies all.contains(#[trigger] units[i].deps[k]) by {
            assert(all[before.len() + 1 + k] == units[i].deps[k]);
        }
    }
}

proof fn pool_begins(units: Seq<graph::Node>, n: nat)
    requires
        n <= units.len(),
    ensures
        pool(units, n).len() > 0,
        pool(units, n)[0] == "compiler_builtins"@,
    decreases n,
{
    if n > 0 {
        pool_begins(units, (n - 1) as nat);
    }
}

proof fn names_fit(names: Seq<Seq<char>>, pool: Seq<Seq<char>>)
    requires
        names.no_duplicates(),
        forall|i: int| 0 <= i < names.len() ==> pool.contains(#[trigger] names[i]),
    ensures
        names.len() <= pool.len(),
{
    names.unique_seq_to_set();
    pool.lemma_cardinality_of_set();
    assert(names.to_set().subset_of(pool.to_set())) by {
        assert forall|x: Seq<char>| names.to_set().contains(x) implies pool.to_set().contains(x) by {
            let i = choose|i: int| 0 <= i < names.len() && names[i] == x;
            assert(pool.contains(names[i]));
        }
    }
    vstd::set_lib::lemma_len_subset(names.to_set(), pool.to_set());
}

pub(crate) proof fn chains_grow(units: Seq<graph::Node>, a: Seq<char>, b: Seq<char>)
    requires
        needed(units, a),
        leads(units, a, b),
    ensures
        needed(units, b),
{
    let path = choose|path: Seq<Seq<char>>| #[trigger] chain(units, path) && path.last() == a;
    let longer = path.push(b);
    assert forall|i: int| 0 <= i < longer.len() - 1 implies leads(units, #[trigger] longer[i], longer[i + 1]) by {
        if i < path.len() - 1 {
            assert(leads(units, path[i], path[i + 1]));
        }
    }
    assert(chain(units, longer));
    assert(longer.last() == b);
}

pub(crate) proof fn chains_begin(units: Seq<graph::Node>, a: Seq<char>)
    requires
        begins(units, a),
    ensures
        needed(units, a),
{
    let path = seq![a];
    assert(chain(units, path));
    assert(path.last() == a);
}

proof fn chains_end_inside(units: Seq<graph::Node>, names: Seq<Seq<char>>, path: Seq<Seq<char>>, n: nat)
    requires
        forall|a: Seq<char>| #[trigger] begins(units, a) ==> names.contains(a),
        followed(units, names, names.len() as int),
        chain(units, path),
        0 < n <= path.len(),
    ensures
        names.contains(path[n - 1]),
    decreases n,
{
    if n > 1 {
        chains_end_inside(units, names, path, (n - 1) as nat);
        let a = choose|a: int| 0 <= a < names.len() && names[a] == path[n - 2];
        assert(leads(units, path[n - 2], path[n - 1]));
        assert(leads(units, names[a], path[n - 1]));
    } else {
        assert(begins(units, path[0]));
    }
}

fn add_new(names: &mut Vec<String>, name: &str)
    ensures
        text::views(final(names)@) == if text::views(old(names)@).contains(name@) {
            text::views(old(names)@)
        } else {
            text::views(old(names)@).push(name@)
        },
{
    if !text::has_text(names, name) {
        text::push_text(names, name);
    }
}

/// What holds while names are gathered.
spec fn gathered(units: Seq<graph::Node>, names: Seq<Seq<char>>) -> bool {
    &&& names.no_duplicates()
    &&& forall|i: int| 0 <= i < names.len() ==> needed(units, #[trigger] names[i])
    &&& forall|i: int| 0 <= i < names.len() ==> pool(units, units.len()).contains(#[trigger] names[i])
}

proof fn gathering_grows(units: Seq<graph::Node>, names: Seq<Seq<char>>, more: Seq<Seq<char>>, x: Seq<char>)
    requires
        gathered(units, names),
        needed(units, x),
        pool(units, units.len()).contains(x),
        more == if names.contains(x) {
            names
        } else {
            names.push(x)
        },
    ensures
        gathered(units, more),
        more.contains(x),
        names.len() <= more.len(),
        forall|i: int| 0 <= i < names.len() ==> #[trigger] more[i] == names[i],
        forall|y: Seq<char>| names.contains(y) ==> more.contains(y),
{
    if !names.contains(x) {
        assert(more[names.len() as int] == x);
        assert forall|i: int, j: int| 0 <= i < more.len() && 0 <= j < more.len() && i != j implies more[i] != more[j] by {
            if i == names.len() {
                assert(names.contains(names[j]));
            } else if j == names.len() {
                assert(names.contains(names[i]));
            }
        }
        assert forall|y: Seq<char>| names.contains(y) implies more.contains(y) by {
            let i = choose|i: int| 0 <= i < names.len() && names[i] == y;
            assert(more[i] == y);
        }
    }
}

fn gather_roots(units: &Vec<Unit>) -> (r: Vec<String>)
    ensures
        gathered(graph::nodes(units@), text::views(r@)),
        forall|a: Seq<char>| #[trigger] begins(graph::nodes(units@), a) ==> text::views(r@).contains(a),
{
    let ghost all = graph::nodes(units@);
    let mut names: Vec<String> = Vec::new();
    assert(text::views(names@) =~= seq![]);
    proof {
        pool_begins(all, all.len());
        assert(pool(all, all.len())[0] == "compiler_builtins"@);
        chains_begin(all, "compiler_builtins"@);
        gathering_grows(all, seq![], seq!["compiler_builtins"@], "compiler_builtins"@);
    }
    text::push_text(&mut names, "compiler_builtins");
    let mut i: usize = 0;
    while i < units.len()
        invariant
            i <= units@.len(),
            all == graph::nodes(units@),
            gathered(all, text::views(names@)),
            text::views(names@).contains("compiler_builtins"@),
            forall|k: int|
                0 <= k < i && (#[trigger] all[k]).host_tests ==> text::views(names@).contains(all[k].name),
        decreases units@.len() - i,
    {
        let u = &units[i];
        assert(all[i as int] == u@);
        if u.host_tests {
            let ghost before = text::views(names@);
            add_new(&mut names, u.name.as_str());
            proof {
                chains_begin(all, u.name@);
                pool_holds(all, all.len(), i as int);
                gathering_grows(all, before, text::views(names@), u.name@);
            }
        }
        i += 1;
    }
    names
}

fn gather(units: &Vec<Unit>) -> (r: Vec<String>)
    ensures
        forall|a: Seq<char>| text::views(r@).contains(a) <==> needed(graph::nodes(units@), a),
{
    let ghost all = graph::nodes(units@);
    let ghost most = pool(all, all.len());
    let mut names = gather_roots(units);
    let mut i: usize = 0;
    while i < names.len()
        invariant
            i <= names@.len(),
            all == graph::nodes(units@),
            most == pool(all, all.len()),
            gathered(all, text::views(names@)),
            followed(all, text::views(names@), i as int),
            forall|a: Seq<char>| #[trigger] begins(all, a) ==> text::views(names@).contains(a),
        decreases most.len() - i,
    {
        let name = names[i].clone();
        let ghost start = text::views(names@);
        assert(start[i as int] == name@);
        proof {
            names_fit(start, most);
        }
        let mut j: usize = 0;
        while j < units.len()
            invariant
                j <= units@.len(),
                i < start.len(),
                all == graph::nodes(units@),
                start[i as int] == name@,
                needed(all, name@),
                gathered(all, text::views(names@)),
                start.len() <= text::views(names@).len(),
                forall|k: int| 0 <= k < start.len() ==> #[trigger] text::views(names@)[k] == start[k],
                forall|y: Seq<char>| start.contains(y) ==> text::views(names@).contains(y),
                forall|a: int, k: int|
                    0 <= a < j && 0 <= k < all[a].deps.len() && all[a].name == name@ ==> text::views(names@).contains(
                        #[trigger] all[a].deps[k],
                    ),
            decreases units@.len() - j,
        {
            let u = &units[j];
            assert(all[j as int] == u@);
            if text::same(u.name.as_str(), name.as_str()) {
                let mut k: usize = 0;
                while k < u.deps.len()
                    invariant
                        k <= u.deps@.len(),
                        j < units@.len(),
                        i < start.len(),
                        all == graph::nodes(units@),
                        all[j as int] == u@,
                        u@.name == name@,
                        needed(all, name@),
                        gathered(all, text::views(names@)),
                        start.len() <= text::views(names@).len(),
                        forall|m: int| 0 <= m < start.len() ==> #[trigger] text::views(names@)[m] == start[m],
                        forall|y: Seq<char>| start.contains(y) ==> text::views(names@).contains(y),
                        forall|a: int, m: int|
                            0 <= a < j && 0 <= m < all[a].deps.len() && all[a].name == name@ ==> text::views(
                                names@,
                            ).contains(#[trigger] all[a].deps[m]),
                        forall|m: int| 0 <= m < k ==> text::views(names@).contains(#[trigger] u@.deps[m]),
                    decreases u.deps@.len() - k,
                {
                    let ghost before = text::views(names@);
                    assert(u@.deps[k as int] == u.deps@[k as int]@);
                    add_new(&mut names, u.deps[k].as_str());
                    proof {
                        let d = all[j as int].deps[k as int];
                        assert(leads(all, name@, d));
                        chains_grow(all, name@, d);
                        pool_holds(all, all.len(), j as int);
                        gathering_grows(all, before, text::views(names@), d);
                    }
                    k += 1;
                }
            }
            j += 1;
        }
        proof {
            let now = text::views(names@);
            assert forall|a: int, b: Seq<char>| 0 <= a < i + 1 && #[trigger] leads(all, now[a], b) implies now.contains(
                b,
            ) by {
                assert(now[a] == start[a]);
                if a < i {
                    assert(leads(all, start[a], b));
                    assert(start.contains(b));
                } else {
                    let (x, k) = choose|x: int, k: int|
                        0 <= x < all.len() && 0 <= k < all[x].deps.len() && all[x].name == now[a]
                            && #[trigger] all[x].deps[k] == b;
                    assert(now.contains(all[x].deps[k]));
                }
            }
        }
        i += 1;
    }
    proof {
        let done = text::views(names@);
        assert forall|a: Seq<char>| done.contains(a) <==> needed(all, a) by {
            if done.contains(a) {
                let k = choose|k: int| 0 <= k < done.len() && done[k] == a;
                assert(needed(all, done[k]));
            }
            if needed(all, a) {
                let path = choose|path: Seq<Seq<char>>| #[trigger] chain(all, path) && path.last() == a;
                chains_end_inside(all, done, path, path.len());
            }
        }
    }
    names
}

/// The host-testable units and everything they depend on, by name. Every provider of a name is
/// kept, because which one applies is the configuration's decision, made when the build is
/// planned.
pub fn portable_closure(units: Vec<Unit>) -> (r: Vec<Unit>)
    ensures
        graph::nodes(r@) == closure(graph::nodes(units@), units@.len()),
{
    let ghost all = graph::nodes(units@);
    let names = gather(&units);
    let mut out: Vec<Unit> = Vec::new();
    let mut i: usize = 0;
    assert(graph::nodes(out@) =~= seq![]);
    while i < units.len()
        invariant
            i <= units@.len(),
            all == graph::nodes(units@),
            forall|a: Seq<char>| text::views(names@).contains(a) <==> needed(all, a),
            graph::nodes(out@) == closure(all, i as nat),
        decreases units@.len() - i,
    {
        assert(all[i as int] == units@[i as int]@);
        if text::has_text(&names, units[i].name.as_str()) {
            let ghost before = graph::nodes(out@);
            out.push(units[i].clone());
            assert(graph::nodes(out@) =~= before.push(all[i as int]));
        }
        i += 1;
    }
    out
}

/// What is compiled for a machine, in the order of a planned build: every unit that is tested on the
/// host, after what it depends on.
pub fn compiled<'a>(ordered: &'a Vec<Unit>, triple: &str) -> (r: Result<Vec<&'a Unit>, String>)
    requires
        hosttest::acyclic(graph::nodes(ordered@)),
    ensures
        ({
            let all = graph::nodes(ordered@);
            let wanted = hosttest::wanted_of(all, None, ordered@.len());
            match r {
                Ok(v) => wanted.len() > 0 && hosttest::referred(v@) == hosttest::needed_of(all, wanted, wanted.len()),
                Err(e) => wanted.len() == 0 && e@ == "no host-testable unit is enabled for "@ + triple@,
            }
        }),
{
    match hosttest::wanted(ordered, None) {
        Ok(wanted) => {
            assert(bytes::places_of(wanted@).len() == wanted@.len());
            Ok(hosttest::needed(ordered, &wanted))
        },
        Err(_) => {
            let mut e = "no host-testable unit is enabled for ".to_owned();
            e.append(triple);
            Err(e)
        },
    }
}

/// The build for a machine: warnings denied, and below a directory of its own.
pub open spec fn is_portable_build(
    b: Build,
    root: Seq<char>,
    sysroot: Seq<char>,
    triple: Seq<char>,
    cfgs: Seq<Seq<char>>,
    check_cfgs: Seq<Seq<char>>,
) -> bool {
    let dir = graph::below(graph::below(root, "build/portability"@), triple);
    &&& b.root@ == root
    &&& b.sysroot@ == sysroot
    &&& b.target matches Target::Builtin(t) && t@ == triple
    &&& b.out@ == graph::below(dir, "out"@)
    &&& b.gen_dir@ == graph::below(dir, "gen"@)
    &&& text::views(b.cfgs@) == cfgs
    &&& text::views(b.check_cfgs@) == check_cfgs
    &&& b.opt_level@ == "1"@
    &&& b.link_script is None
    &&& b.deny_warnings
    &&& !b.bitcode
}

/// The build for a machine.
pub fn portable_build(root: &str, sysroot: &str, triple: &str, cfgs: &Vec<String>, check_cfgs: &Vec<String>) -> (r:
    Build)
    ensures
        is_portable_build(r, root@, sysroot@, triple@, text::views(cfgs@), text::views(check_cfgs@)),
{
    let dir = graph::join_path(graph::join_path(root, "build/portability").as_str(), triple);
    Build {
        root: root.to_owned(),
        sysroot: sysroot.to_owned(),
        target: Target::Builtin(triple.to_owned()),
        out: graph::join_path(dir.as_str(), "out"),
        gen_dir: graph::join_path(dir.as_str(), "gen"),
        cfgs: text::copy_texts(cfgs),
        check_cfgs: text::copy_texts(check_cfgs),
        opt_level: "1".to_owned(),
        link_script: None,
        deny_warnings: true,
        bitcode: false,
    }
}

} // verus!
