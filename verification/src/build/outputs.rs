//! What is built from a unit and how it is linked, said of the unit and the target themselves.

use vstd::prelude::*;
use vstd::string::*;

use super::keys;
use super::{Build, Target};
use crate::bytes;
use crate::graph;
use crate::readings;

verus! {

/// What a unit is built into is named after it, by its kind, and an image by the firmware it is for.
pub proof fn artifacts_are_named_after_their_kind(b: Build, u: graph::Node)
    ensures
        ({
            let name = super::crate_name(u.name);
            let f = super::filename_of(b, u);
            let uefi = b.target matches Target::Builtin(t) && bytes::ends(t@, "-uefi"@);
            &&& u.kind is Lib ==> f == "lib"@ + name + ".rlib"@
            &&& u.kind is Module ==> f == "lib"@ + name + ".a"@
            &&& u.kind is User ==> f == name + ".user.elf"@
            &&& u.kind is Bin && uefi ==> f == name + "."@ + "efi"@
            &&& u.kind is Bin && !uefi ==> f == name + "."@ + "elf"@
        }),
{
}

/// An image is linked by what it is for: one with a target of its own needs a script and is given the
/// directory of what was generated, one for firmware is linked without what differs from run to run, and
/// nothing else is told how to link.
pub proof fn images_are_linked_for_their_target(b: Build, u: graph::Node)
    ensures
        ({
            let a = super::link_args(b, u);
            let uefi = b.target matches Target::Builtin(t) && bytes::ends(t@, "-uefi"@);
            &&& !(u.kind is Bin) ==> a is Some && a->0.len() == 0
            &&& u.kind is Bin && b.target is Builtin ==> a is Some && (!uefi ==> a->0.len() == 0)
            &&& u.kind is Bin && uefi ==> keys::has_pair(a->0, "-C"@, "link-arg=/Brepro"@) && keys::has_pair(
                a->0,
                "-C"@,
                "link-arg=/DEBUG:NONE"@,
            )
            &&& u.kind is Bin && b.target is Spec ==> (a is Some <==> b.link_script is Some)
            &&& u.kind is Bin && b.target is Spec && b.link_script is Some ==> keys::has_pair(
                a->0,
                "-C"@,
                "link-arg=-T"@ + b.link_script->0@,
            ) && keys::has_pair(a->0, "-C"@, "link-arg=-L"@ + b.gen_dir@)
        }),
{
    reveal_strlit("efi");
    reveal_strlit("elf");
    assert("efi"@[1] == 'f' && "elf"@[1] == 'l');
    let a = super::link_args(b, u);
    if a is Some && a->0.len() >= 4 {
        keys::a_pair_stands(a->0, 0);
        keys::a_pair_stands(a->0, 2);
    }
}

/// A flag may name the tree and the output: where it begins with one of them, the path stands there
/// instead. A flag that names neither stays.
pub proof fn flags_name_the_tree(b: Build, rest: Seq<char>)
    requires
        forall|i: int| 0 <= i < rest.len() ==> #[trigger] rest[i] != '$',
        forall|i: int| 0 <= i < b.root@.len() ==> #[trigger] b.root@[i] != '$',
    ensures
        super::expanded(b, "$ROOT"@ + rest) == b.root@ + rest,
        super::expanded(b, "$OUT"@ + rest) == b.out@ + rest,
        super::expanded(b, rest) == rest,
{
    reveal_strlit("$ROOT");
    reveal_strlit("$OUT");
    let (r, o) = ("$ROOT"@, "$OUT"@);
    let none = Seq::<char>::empty();
    nothing_stands(rest, r);
    nothing_stands(rest, o);
    assert(none + r + rest =~= r + rest);
    assert(none + o + rest =~= o + rest);
    readings::the_first_place_is_replaced(none, r, b.root@, rest);
    assert(none + b.root@ + rest =~= b.root@ + rest);
    let whole = b.root@ + rest;
    assert forall|i: int| 0 <= i < whole.len() implies #[trigger] whole[i] != '$' by {
        if i < b.root@.len() {
            assert(whole[i] == b.root@[i]);
        } else {
            assert(whole[i] == rest[i - b.root@.len()]);
        }
    }
    nothing_stands(whole, o);
    readings::the_first_place_is_replaced(none, o, b.out@, whole);
    readings::the_first_place_is_replaced(none, o, b.out@, rest);
    assert(none + b.out@ + rest =~= b.out@ + rest);
    let flag = o + rest;
    assert forall|j: int| 0 <= j < flag.len() implies !#[trigger] bytes::stands_at(flag, j, r) by {
        if bytes::stands_at(flag, j, r) {
            assert(flag.subrange(j, j + 5)[0] == flag[j]);
            assert(flag.subrange(j, j + 5)[1] == flag[j + 1]);
            if j >= 4 {
                assert(flag[j] == rest[j - 4]);
            }
        }
    }
    readings::the_first_place_is_replaced(none, r, b.root@, flag);
}

proof fn nothing_stands(s: Seq<char>, name: Seq<char>)
    requires
        name.len() > 0,
        name[0] == '$',
        forall|i: int| 0 <= i < s.len() ==> #[trigger] s[i] != '$',
    ensures
        forall|j: int| 0 <= j < s.len() ==> !#[trigger] bytes::stands_at(s, j, name),
{
    assert forall|j: int| 0 <= j < s.len() implies !#[trigger] bytes::stands_at(s, j, name) by {
        if bytes::stands_at(s, j, name) {
            assert(s.subrange(j, j + name.len())[0] == s[j]);
        }
    }
}

/// The first library and the configuration are built like every unit: for the target, from their source, and
/// the configuration against the two before it.
pub proof fn the_first_libraries_are_built_alike(b: Build, core: Seq<char>, builtins: Seq<char>, src: Seq<char>)
    ensures
        ({
            let c = super::core_args_of(b, src);
            let k = super::kconfig_args_of(b, core, builtins, src);
            &&& keys::has_pair(c, "--target"@, super::target_arg(b.target))
            &&& keys::has_pair(c, "--crate-type"@, "rlib"@)
            &&& keys::has_pair(c, "--crate-name"@, "core"@)
            &&& keys::has_pair(c, "-Z"@, "force-unstable-if-unmarked"@)
            &&& c.last() == src
            &&& keys::has_pair(k, "--target"@, super::target_arg(b.target))
            &&& keys::has_pair(k, "--crate-name"@, "kconfig"@)
            &&& keys::has_pair(k, "--extern"@, "core="@ + core)
            &&& keys::has_pair(k, "--extern"@, "compiler_builtins="@ + builtins)
            &&& k.last() == src
        }),
{
    let a = super::common_args(b);
    let c = super::core_args_of(b, src);
    let k = super::kconfig_args_of(b, core, builtins, src);
    let n = a.len() as int;
    assert(n == 20);
    keys::a_pair_stands(c, 4);
    keys::a_pair_stands(c, 20);
    keys::a_pair_stands(c, 22);
    keys::a_pair_stands(c, 24);
    keys::a_pair_stands(k, 4);
    keys::a_pair_stands(k, 22);
    keys::a_pair_stands(k, 24);
    keys::a_pair_stands(k, 26);
}

} // verus!
