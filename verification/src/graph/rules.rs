//! Which units are part of a build, which may depend on which, and what a manifest says, stated of the
//! units and manifests themselves.

use vstd::prelude::*;
use vstd::string::*;

use super::order;
use super::{Kind, Manifest, Node};
use crate::kcfg::expr;
use crate::kcfg::expr::Tri;
use crate::kcfg::resolve;
use crate::text;

verus! {

/// What the configuration makes of a unit's condition; a unit without one is always wanted.
pub open spec fn wanted(u: Node, o: resolve::Outcome) -> Tri {
    match u.requires {
        None => Tri::Y,
        Some(e) => resolve::eval_in(o.names, o.vals, e),
    }
}

/// Whether a unit can be built the way the configuration wants it: a module as `m`, and everything else
/// as `y`.
pub open spec fn can_be_built(u: Node, o: resolve::Outcome) -> bool {
    wanted(u, o) == Tri::N || (wanted(u, o) == Tri::M <==> u.kind == Kind::Module)
}

proof fn active_are_wanted(units: Seq<Node>, o: resolve::Outcome, n: nat, u: Node)
    requires
        n <= units.len(),
        super::active(units, o, n) is Ok,
    ensures
        super::active(units, o, n)->Ok_0.contains(u) <==> (exists|i: int| 0 <= i < n && #[trigger] units[i] == u) && wanted(
            u,
            o,
        ) != Tri::N,
        forall|i: int| 0 <= i < n ==> can_be_built(#[trigger] units[i], o),
    decreases n,
{
    if n > 0 {
        active_are_wanted(units, o, (n - 1) as nat, u);
        let before = super::active(units, o, (n - 1) as nat)->Ok_0;
        let all = super::active(units, o, n)->Ok_0;
        let x = units[n - 1];
        if wanted(x, o) != Tri::N {
            assert(all == before.push(x));
            assert(all[before.len() as int] == x);
            if before.contains(u) {
                let q = before.index_of(u);
                assert(all[q] == u);
            }
            if all.contains(u) {
                let q = choose|q: int| 0 <= q < all.len() && all[q] == u;
                if q < before.len() {
                    assert(before[q] == u);
                } else {
                    assert(units[n - 1] == u);
                }
            }
        }
        if exists|i: int| 0 <= i < n && #[trigger] units[i] == u {
            let i = choose|i: int| 0 <= i < n && #[trigger] units[i] == u;
            if i < n - 1 {
                assert(0 <= i < n - 1 && units[i] == u);
            }
        }
    }
}

/// A planned build holds exactly the units whose condition does not come out as `n`, and each of them
/// can be built the way the configuration wants it.
pub proof fn plans_hold_what_is_wanted(units: Seq<Node>, o: resolve::Outcome, u: Node)
    requires
        super::planned(units, o) is Ok,
    ensures
        super::planned(units, o)->Ok_0.contains(u) <==> units.contains(u) && wanted(u, o) != Tri::N,
        units.contains(u) ==> can_be_built(u, o),
{
    let on = super::active(units, o, units.len())->Ok_0;
    let out = super::planned(units, o)->Ok_0;
    active_are_wanted(units, o, units.len(), u);
    super::dependencies_come_first(units, o);
    if units.contains(u) {
        let i = units.index_of(u);
        assert(units[i] == u);
    }
    if on.contains(u) {
        let i = on.index_of(u);
        assert(out.contains(on[i]));
    }
    if out.contains(u) {
        let q = out.index_of(u);
        let sorted = super::by_name(on, on.len());
        super::planned_links_are_closed(on);
        order::ordered_graphs_are_in_order(super::links(sorted));
        super::sorting_keeps(on, on.len());
        let idx = order::ordered(super::links(sorted))->Ok_0;
        assert(out == idx.map_values(|i: int| sorted[i]));
        assert(out[q] == sorted[idx[q]]);
        assert(0 <= idx[q] < sorted.len());
        let p = idx[q];
        let i = choose|i: int| 0 <= i < on.len() && #[trigger] on[i] == #[trigger] sorted[p];
        assert(on[i] == u);
    }
}

/// Whether a unit may depend on another.
pub open spec fn may_depend(u: Node, dep: Node) -> bool {
    &&& super::rank_of(dep.layer)->0 <= super::rank_of(u.layer)->0
    &&& dep.target is None
    &&& dep.kind != Kind::Module
    &&& u.kind == Kind::Module ==> super::rank_of(dep.layer)->0 <= super::rank_of("core"@)->0 && dep.layer != "arch"@
    &&& dep.layer == "arch"@ ==> u.layer == "kernel"@ || u.layer == "arch"@
}

proof fn active_if_they_can_be(units: Seq<Node>, o: resolve::Outcome, n: nat)
    requires
        n <= units.len(),
        forall|i: int| 0 <= i < n ==> can_be_built(#[trigger] units[i], o),
    ensures
        super::active(units, o, n) is Ok,
    decreases n,
{
    if n > 0 {
        active_if_they_can_be(units, o, (n - 1) as nat);
        assert(can_be_built(units[n - 1], o));
    }
}

proof fn none_twice(on: Seq<Node>, n: nat)
    requires
        n <= on.len(),
        forall|i: int, j: int| 0 <= i < j < on.len() ==> (#[trigger] on[i]).name != (#[trigger] on[j]).name,
    ensures
        super::twice(on, n) is None,
    decreases n,
{
    if n > 0 {
        none_twice(on, (n - 1) as nat);
        super::places_are_inside(on, on[n - 1].name, 0);
    }
}

proof fn links_are_right(on: Seq<Node>, u: Node, n: nat)
    requires
        n <= u.deps.len(),
        forall|i: int, j: int| 0 <= i < j < on.len() ==> (#[trigger] on[i]).name != (#[trigger] on[j]).name,
        forall|k: int|
            0 <= k < u.deps.len() ==> exists|j: int|
                0 <= j < on.len() && (#[trigger] on[j]).name == (#[trigger] u.deps[k]) && may_depend(u, on[j]),
    ensures
        super::links_wrong(on, u, n) is None,
    decreases n,
{
    if n > 0 {
        links_are_right(on, u, (n - 1) as nat);
        let d = u.deps[n - 1];
        let j = choose|j: int| 0 <= j < on.len() && (#[trigger] on[j]).name == d && may_depend(u, on[j]);
        super::places_are_inside(on, d, 0);
        super::first_of_name(on, d, 0);
        layers_are_in_order();
    }
}

proof fn graphs_are_right(on: Seq<Node>, n: nat)
    requires
        n <= on.len(),
        forall|i: int, j: int| 0 <= i < j < on.len() ==> (#[trigger] on[i]).name != (#[trigger] on[j]).name,
        forall|i: int, k: int|
            0 <= i < on.len() && 0 <= k < on[i].deps.len() ==> exists|j: int|
                0 <= j < on.len() && (#[trigger] on[j]).name == (#[trigger] on[i].deps[k]) && may_depend(on[i], on[j]),
    ensures
        super::graph_wrong(on, n) is None,
    decreases n,
{
    if n > 0 {
        graphs_are_right(on, (n - 1) as nat);
        let u = on[n - 1];
        assert forall|k: int| 0 <= k < u.deps.len() implies exists|j: int|
            0 <= j < on.len() && (#[trigger] on[j]).name == (#[trigger] u.deps[k]) && may_depend(u, on[j]) by {
            assert(on[n - 1].deps[k] == u.deps[k]);
        }
        links_are_right(on, u, u.deps.len());
    }
}

/// Nothing else keeps a build from being planned: where every unit can be built as the configuration
/// wants it, no two that are wanted have the same name, each depends only on wanted ones that it may
/// depend on, and no unit depends on itself, directly or not, the build is planned.
pub proof fn sound_graphs_are_planned(units: Seq<Node>, o: resolve::Outcome, depth: spec_fn(Seq<char>) -> nat)
    requires
        forall|i: int| 0 <= i < units.len() ==> can_be_built(#[trigger] units[i], o),
        super::active(units, o, units.len()) is Ok ==> {
            let on = super::active(units, o, units.len())->Ok_0;
            &&& forall|i: int, j: int| 0 <= i < j < on.len() ==> (#[trigger] on[i]).name != (#[trigger] on[j]).name
            &&& forall|i: int, k: int|
                0 <= i < on.len() && 0 <= k < on[i].deps.len() ==> exists|j: int|
                    0 <= j < on.len() && (#[trigger] on[j]).name == (#[trigger] on[i].deps[k]) && may_depend(on[i], on[j])
            &&& forall|i: int, k: int|
                0 <= i < on.len() && 0 <= k < on[i].deps.len() ==> depth(#[trigger] on[i].deps[k]) < depth(on[i].name)
        },
    ensures
        super::planned(units, o) is Ok,
{
    active_if_they_can_be(units, o, units.len());
    let on = super::active(units, o, units.len())->Ok_0;
    none_twice(on, on.len());
    graphs_are_right(on, on.len());
    super::planned_links_are_closed(on);
    let sorted = super::by_name(on, on.len());
    let g = super::links(sorted);
    let height = |i: int| depth(sorted[i].name);
    assert forall|i: int, k: int| 0 <= i < g.len() && 0 <= k < g[i].len() implies height(#[trigger] g[i][k]) < height(i) by {
        super::dependencies_are_found(on, i, k);
        super::sorting_keeps(on, on.len());
        let q = choose|q: int| 0 <= q < on.len() && #[trigger] on[q] == #[trigger] sorted[i];
        assert(depth(on[q].deps[k]) < depth(on[q].name));
        super::places_are_inside(sorted, sorted[i].deps[k], 0);
    }
    order::acyclic_graphs_are_ordered(g, height);
}

/// The layers, from the lowest to the highest: builtins, hal, loader, arch, core, device, subsystem,
/// kernel. There is no other.
pub proof fn layers_are_in_order()
    ensures
        super::rank_of("builtins"@) is Some,
        super::rank_of("builtins"@)->0 < super::rank_of("hal"@)->0 < super::rank_of("loader"@)->0,
        super::rank_of("loader"@)->0 < super::rank_of("arch"@)->0 < super::rank_of("core"@)->0,
        super::rank_of("core"@)->0 < super::rank_of("device"@)->0 < super::rank_of("subsystem"@)->0,
        super::rank_of("subsystem"@)->0 < super::rank_of("kernel"@)->0,
        super::rank_of("core"@)->0 == 4,
        forall|l: Seq<char>|
            #![trigger super::rank_of(l)]
            super::rank_of(l) is Some ==> l == "builtins"@ || l == "hal"@ || l == "loader"@ || l == "arch"@ || l == "core"@
                || l == "device"@ || l == "subsystem"@ || l == "kernel"@,
{
    reveal_strlit("builtins");
    reveal_strlit("hal");
    reveal_strlit("loader");
    reveal_strlit("arch");
    reveal_strlit("core");
    reveal_strlit("device");
    reveal_strlit("subsystem");
    reveal_strlit("kernel");
    assert("builtins"@.len() == 8 && "hal"@.len() == 3 && "subsystem"@.len() == 9);
    assert("loader"@.len() == 6 && "device"@.len() == 6 && "kernel"@.len() == 6);
    assert("arch"@.len() == 4 && "core"@.len() == 4);
    assert("loader"@[0] == 'l' && "device"@[0] == 'd' && "kernel"@[0] == 'k');
    assert("arch"@[0] == 'a' && "core"@[0] == 'c');
}

/// A manifest is taken exactly where it names its unit, a kind and a layer that there are, a condition
/// that reads as one, a condition at all where it is a module, and a target of its own only where it is
/// an image.
pub proof fn manifests_are_taken_if_sound(m: Manifest)
    ensures
        super::refusal(m) is None <==> {
            &&& m.name is Some
            &&& m.kind is Some ==> m.kind->0@ == "lib"@ || m.kind->0@ == "bin"@ || m.kind->0@ == "module"@
            &&& m.layer is Some
            &&& super::rank_of(m.layer->0@) is Some
            &&& m.requires is Some ==> expr::condition(m.requires->0@) is Ok
            &&& m.kind is Some && m.kind->0@ == "module"@ ==> m.requires is Some
            &&& m.target is Some ==> m.kind is Some && m.kind->0@ == "bin"@
        },
{
    reveal_strlit("lib");
    reveal_strlit("bin");
    reveal_strlit("module");
    assert("lib"@[0] == 'l' && "bin"@[0] == 'b' && "module"@[0] == 'm');
}

/// A unit is what its manifest says it is; one that does not say where it starts starts in `src`, an
/// image at its `main.rs` and everything else at its `lib.rs`.
pub proof fn units_are_what_their_manifests_say(m: Manifest)
    requires
        super::refusal(m) is None,
    ensures
        ({
            let u = super::described(m);
            &&& u.name == m.name->0@
            &&& u.layer == m.layer->0@
            &&& u.dir == m.dir@
            &&& u.manifest == m.path@
            &&& u.deps == text::views(m.deps@)
            &&& u.rustflags == text::views(m.rustflags@)
            &&& m.kind is None ==> u.kind == Kind::Lib
            &&& m.kind is Some && m.kind->0@ == "lib"@ ==> u.kind == Kind::Lib
            &&& m.kind is Some && m.kind->0@ == "bin"@ ==> u.kind == Kind::Bin
            &&& m.kind is Some && m.kind->0@ == "module"@ ==> u.kind == Kind::Module
            &&& m.root is Some ==> u.root == m.root->0@
            &&& m.root is None && u.kind == Kind::Bin ==> u.root == "src/main.rs"@
            &&& m.root is None && u.kind != Kind::Bin ==> u.root == "src/lib.rs"@
            &&& m.requires is Some ==> u.requires == Some(expr::condition(m.requires->0@)->Ok_0)
            &&& m.requires is None ==> u.requires is None
            &&& m.host_tests == Some(true) <==> u.host_tests
            &&& m.target is Some ==> u.target == Some(m.target->0@)
            &&& m.target is None ==> u.target is None
        }),
{
    reveal_strlit("lib");
    reveal_strlit("bin");
    reveal_strlit("module");
    assert("lib"@[0] == 'l' && "bin"@[0] == 'b' && "module"@[0] == 'm');
}

/// A name in a directory has that directory as its parent, and a neighbour of it stands beside it.
pub proof fn paths_go_down_and_up(dir: Seq<char>, name: Seq<char>, other: Seq<char>)
    requires
        dir.len() > 0,
        dir.last() != '/',
        name.len() > 0,
        forall|i: int| 0 <= i < name.len() ==> #[trigger] name[i] != '/',
    ensures
        super::below(dir, name) == dir + seq!['/'] + name,
        super::parent(super::below(dir, name)) == dir,
        super::neighbour(super::below(dir, name), other) == dir + seq!['/'] + other,
{
    reveal_strlit("/");
    assert("/"@ =~= seq!['/']);
    let p = dir + seq!['/'] + name;
    assert(name[0] != '/');
    parts_begin_behind_the_slash(p, dir.len() as int, p.len() as int);
    assert(p.subrange(0, dir.len() as int) =~= dir);
    assert(p.subrange(0, dir.len() as int + 1) =~= dir + seq!['/']);
}

proof fn parts_begin_behind_the_slash(p: Seq<char>, n: int, i: int)
    requires
        0 <= n < i <= p.len(),
        p[n] == '/',
        forall|j: int| n < j < i ==> #[trigger] p[j] != '/',
    ensures
        super::last_part(p, i) == n + 1,
    decreases i,
{
    if i > n + 1 {
        assert(p[i - 1] != '/');
        parts_begin_behind_the_slash(p, n, i - 1);
    }
}

} // verus!
