//! The steps of a build: what the configuration says of it, which units are built and in what
//! order, and which of them becomes the image.

use vstd::prelude::*;
use vstd::string::*;

use crate::bootcfg;
use crate::graph;
use crate::graph::{Kind, Unit};
use crate::hosttest;
use crate::kcfg::resolve;
use crate::kcfg::resolve::Resolution;
use crate::text;

verus! {

/// The target that a configuration selects.
pub fn target_name(res: &Resolution) -> (r: Result<String, String>)
    ensures
        match r {
            Ok(t) => t@.len() > 0 && t@ == resolve::str_in(res@, "TARGET"@),
            Err(e) => resolve::str_in(res@, "TARGET"@).len() == 0 && e@
                == "configuration does not select a target (TARGET is empty)"@,
        },
{
    let t = res.str("TARGET");
    if t.is_empty() {
        return Err("configuration does not select a target (TARGET is empty)".to_owned());
    }
    Ok(t.to_owned())
}

/// The level that a configuration is optimised at.
pub open spec fn level(o: resolve::Outcome) -> Seq<char> {
    if bootcfg::on(o, "OPTIMIZE_FOR_SIZE"@) {
        "z"@
    } else if bootcfg::on(o, "DEBUG_BUILD"@) {
        "1"@
    } else {
        "2"@
    }
}

/// The level that a configuration is optimised at.
pub fn opt_level(res: &Resolution) -> (r: &'static str)
    ensures
        r@ == level(res@),
{
    if res.is_on("OPTIMIZE_FOR_SIZE") {
        "z"
    } else if res.is_on("DEBUG_BUILD") {
        "1"
    } else {
        "2"
    }
}

/// The linker script that a configuration names, if it does.
pub fn link_script(res: &Resolution, root: &str) -> (r: Option<String>)
    ensures
        text::opt(r) == if resolve::str_in(res@, "LINKER_SCRIPT"@).len() == 0 {
            None
        } else {
            Some(graph::below(root@, resolve::str_in(res@, "LINKER_SCRIPT"@)))
        },
{
    let s = res.str("LINKER_SCRIPT");
    if s.is_empty() {
        None
    } else {
        Some(graph::join_path(root, s))
    }
}

/// Whether a unit is built before all others: `core` comes from the toolchain's own source,
/// `compiler_builtins` resolves the calls that the code generator emits, and `kconfig` must be there
/// before any unit that reads its constants.
pub open spec fn comes_first(name: Seq<char>) -> bool {
    name == "core"@ || name == "compiler_builtins"@ || name == "kconfig"@
}

/// Whether a unit is part of the kernel's own image. One with a target of its own is a separate
/// image, and a module is built against the finished configuration afterwards.
pub open spec fn in_kernel(u: graph::Node) -> bool {
    !comes_first(u.name) && u.target is None && u.kind != Kind::Module
}

/// The places of those among the first `n` units that are built for the kernel's image, each name
/// once.
pub open spec fn kernel_units(units: Seq<graph::Node>, n: nat) -> Seq<int>
    decreases n,
{
    if n == 0 {
        seq![]
    } else {
        let before = kernel_units(units, (n - 1) as nat);
        if in_kernel(units[n - 1]) && !is_built(units, before, units[n - 1].name) {
            before.push(n - 1)
        } else {
            before
        }
    }
}

/// Whether a unit with a name is among those built.
pub open spec fn is_built(units: Seq<graph::Node>, built: Seq<int>, name: Seq<char>) -> bool {
    exists|k: int| 0 <= k < built.len() && units[#[trigger] built[k]].name == name
}

/// The image among the first `n` units built: the last that links one.
pub open spec fn image_unit(units: Seq<graph::Node>, built: Seq<int>, n: nat) -> Option<int>
    decreases n,
{
    if n == 0 {
        None
    } else if units[built[n - 1]].kind == Kind::Bin {
        Some(built[n - 1])
    } else {
        image_unit(units, built, (n - 1) as nat)
    }
}

/// The places of those among the first `n` units that are images for a target of their own.
pub open spec fn own_images(units: Seq<graph::Node>, n: nat) -> Seq<int>
    decreases n,
{
    if n == 0 {
        seq![]
    } else if units[n - 1].target is Some {
        own_images(units, (n - 1) as nat).push(n - 1)
    } else {
        own_images(units, (n - 1) as nat)
    }
}

/// What is built, and in what order, by place among the planned units.
#[derive(Debug)]
pub struct Steps {
    /// The unit that every other needs.
    pub builtins: usize,
    /// The units of the kernel's image.
    pub kernel: Vec<usize>,
    /// The one among them that links the image.
    pub image: Option<usize>,
    /// The images for targets of their own.
    pub foreign: Vec<usize>,
}

/// Places without bounds.
pub open spec fn places(v: Seq<usize>) -> Seq<int> {
    v.map_values(|p: usize| p as int)
}

/// A place without bounds.
pub open spec fn opt_place(p: Option<usize>) -> Option<int> {
    match p {
        Some(i) => Some(i as int),
        None => None,
    }
}

fn name_is_built(units: &Vec<Unit>, built: &Vec<usize>, name: &str) -> (r: bool)
    requires
        forall|k: int| 0 <= k < built@.len() ==> #[trigger] built@[k] < units@.len(),
    ensures
        r == is_built(graph::nodes(units@), places(built@), name@),
{
    let ghost all = graph::nodes(units@);
    let ghost at = places(built@);
    let mut k: usize = 0;
    while k < built.len()
        invariant
            k <= built@.len(),
            all == graph::nodes(units@),
            at == places(built@),
            forall|j: int| 0 <= j < built@.len() ==> #[trigger] built@[j] < units@.len(),
            forall|j: int| 0 <= j < k ==> all[#[trigger] at[j]].name != name@,
        decreases built@.len() - k,
    {
        assert(built@[k as int] < units@.len());
        assert(at[k as int] == built@[k as int]);
        if text::same(units[built[k]].name.as_str(), name) {
            assert(all[at[k as int]].name == name@);
            return true;
        }
        k += 1;
    }
    false
}

fn is_first(name: &str) -> (r: bool)
    ensures
        r == comes_first(name@),
{
    text::same(name, "core") || text::same(name, "compiler_builtins") || text::same(name, "kconfig")
}

/// What is built, and in what order, for a plan of units.
pub fn steps(units: &Vec<Unit>) -> (r: Result<Steps, String>)
    ensures
        ({
            let all = graph::nodes(units@);
            let builtins = graph::place(all, "compiler_builtins"@, 0);
            match r {
                Ok(s) => {
                    &&& units@.len() > 0
                    &&& builtins == Some(s.builtins as int)
                    &&& places(s.kernel@) == kernel_units(all, all.len())
                    &&& opt_place(s.image) == image_unit(all, kernel_units(all, all.len()), s.kernel@.len())
                    &&& places(s.foreign@) == own_images(all, all.len())
                },
                Err(e) => if units@.len() == 0 {
                    e@ == "no units are enabled in this configuration"@
                } else {
                    builtins is None && e@ == "no compiler_builtins unit in this configuration"@
                },
            }
        }),
{
    let ghost all = graph::nodes(units@);
    if units.len() == 0 {
        return Err("no units are enabled in this configuration".to_owned());
    }
    let builtins: usize = match graph::find_unit(units, "compiler_builtins") {
        Some(i) => i,
        None => return Err("no compiler_builtins unit in this configuration".to_owned()),
    };
    let mut kernel: Vec<usize> = Vec::new();
    let mut foreign: Vec<usize> = Vec::new();
    let mut image: Option<usize> = None;
    assert(places(kernel@) =~= seq![]);
    assert(places(foreign@) =~= seq![]);
    let mut i: usize = 0;
    while i < units.len()
        invariant
            i <= units@.len(),
            all == graph::nodes(units@),
            places(kernel@) == kernel_units(all, i as nat),
            places(foreign@) == own_images(all, i as nat),
            forall|k: int| 0 <= k < kernel@.len() ==> #[trigger] kernel@[k] < units@.len(),
            opt_place(image) == image_unit(all, places(kernel@), kernel@.len()),
        decreases units@.len() - i,
    {
        let u = &units[i];
        assert(all[i as int] == u@);
        let ghost built = places(kernel@);
        if !is_first(u.name.as_str()) && u.target.is_none() && u.kind != Kind::Module && !name_is_built(
            units,
            &kernel,
            u.name.as_str(),
        ) {
            kernel.push(i);
            assert(places(kernel@) =~= built.push(i as int));
            proof {
                image_of_front(all, built, built.push(i as int), built.len());
            }
            if u.kind == Kind::Bin {
                image = Some(i);
            }
        }
        if u.target.is_some() {
            let ghost before = places(foreign@);
            foreign.push(i);
            assert(places(foreign@) =~= before.push(i as int));
        }
        i += 1;
    }
    Ok(Steps { builtins, kernel, image, foreign })
}

proof fn image_of_front(units: Seq<graph::Node>, a: Seq<int>, b: Seq<int>, n: nat)
    requires
        n <= a.len(),
        n <= b.len(),
        forall|k: int| 0 <= k < n ==> a[k] == b[k],
    ensures
        image_unit(units, a, n) == image_unit(units, b, n),
    decreases n,
{
    if n > 0 {
        image_of_front(units, a, b, (n - 1) as nat);
    }
}

/// The unit that links the image, where one was built.
pub fn linked(image: Option<usize>) -> (r: Result<usize, String>)
    ensures
        match r {
            Ok(i) => image == Some(i),
            Err(e) => image is None && e@ == "no unit of kind `bin` was built; nothing to boot"@,
        },
{
    match image {
        Some(i) => Ok(i),
        None => Err("no unit of kind `bin` was built; nothing to boot".to_owned()),
    }
}

/// Those among the first `n` units that do not come before all others.
pub open spec fn later(units: Seq<graph::Node>, n: nat) -> Seq<graph::Node>
    decreases n,
{
    if n == 0 {
        seq![]
    } else if comes_first(units[n - 1].name) {
        later(units, (n - 1) as nat)
    } else {
        later(units, (n - 1) as nat).push(units[n - 1])
    }
}

/// What is built for an image with a target of its own, after the three that come first: its
/// dependencies, each after what it depends on itself, then the image.
pub fn foreign_units<'a>(unit: &'a Unit, all: &'a Vec<Unit>) -> (r: Vec<&'a Unit>)
    requires
        hosttest::acyclic(graph::nodes(all@)),
    ensures
        ({
            let needed = hosttest::gathered(graph::nodes(all@), seq![], unit@);
            hosttest::referred(r@) == later(needed, needed.len())
        }),
{
    let mut needed: Vec<&'a Unit> = Vec::new();
    assert(hosttest::referred(needed@) =~= seq![]);
    hosttest::collect_deps(unit, all, &mut needed);
    let ghost list = hosttest::referred(needed@);
    let mut out: Vec<&'a Unit> = Vec::new();
    assert(hosttest::referred(out@) =~= seq![]);
    let mut i: usize = 0;
    while i < needed.len()
        invariant
            i <= needed@.len(),
            list == hosttest::referred(needed@),
            hosttest::referred(out@) == later(list, i as nat),
        decreases needed@.len() - i,
    {
        assert(list[i as int] == needed@[i as int]@);
        if !is_first(needed[i].name.as_str()) {
            let ghost before = hosttest::referred(out@);
            out.push(needed[i]);
            assert(hosttest::referred(out@) =~= before.push(list[i as int]));
        }
        i += 1;
    }
    out
}

proof fn kernel_units_are(units: Seq<graph::Node>, n: nat)
    requires
        n <= units.len(),
    ensures
        forall|k: int|
            0 <= k < kernel_units(units, n).len() ==> 0 <= (#[trigger] kernel_units(units, n)[k]) < n && in_kernel(
                units[kernel_units(units, n)[k]],
            ),
        forall|k: int, j: int|
            0 <= k < j < kernel_units(units, n).len() ==> (#[trigger] kernel_units(units, n)[k]) < (
            #[trigger] kernel_units(units, n)[j]),
    decreases n,
{
    if n > 0 {
        kernel_units_are(units, (n - 1) as nat);
        let (all, before) = (kernel_units(units, n), kernel_units(units, (n - 1) as nat));
        assert forall|k: int| 0 <= k < all.len() implies 0 <= (#[trigger] all[k]) < n && in_kernel(units[all[k]]) by {
            if k < before.len() {
                assert(all[k] == before[k]);
            }
        }
        assert forall|k: int, j: int| 0 <= k < j < all.len() implies (#[trigger] all[k]) < (#[trigger] all[j]) by {
            assert(all[k] == before[k]);
            if j < before.len() {
                assert(all[j] == before[j]);
            }
        }
    }
}

/// The kernel's units are built in the order of the plan, and none of them is a module or an image
/// for another target.
pub proof fn kernel_is_built_in_order(units: Seq<graph::Node>)
    ensures
        ({
            let built = kernel_units(units, units.len());
            &&& forall|k: int| 0 <= k < built.len() ==> 0 <= (#[trigger] built[k]) < units.len() && in_kernel(
                units[built[k]],
            )
            &&& forall|k: int, j: int| 0 <= k < j < built.len() ==> (#[trigger] built[k]) < (#[trigger] built[j])
        }),
{
    kernel_units_are(units, units.len());
}

} // verus!
