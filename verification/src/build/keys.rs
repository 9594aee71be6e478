//! That a cache key tells apart whatever can change what is built, and that the compiler is told what
//! the build and the unit say.

use vstd::prelude::*;
use vstd::string::*;

use super::{Artifact, Build, Target};
use crate::bytes;
use crate::cache;
use crate::graph;
use crate::graph::Kind;
use crate::text;

verus! {

/// What differs between two texts that share their front and their end.
proof fn middles_keep_apart<T>(front: Seq<T>, a: Seq<T>, b: Seq<T>, back: Seq<T>)
    requires
        front + a + back == front + b + back,
    ensures
        a == b,
{
    let (x, y) = (front + a + back, front + b + back);
    assert(x.len() == front.len() + a.len() + back.len());
    assert(y.len() == front.len() + b.len() + back.len());
    let n = front.len() as int;
    assert(a =~= x.subrange(n, n + a.len()));
    assert(b =~= y.subrange(n, n + b.len()));
}

proof fn deps_from_the_first(all: Seq<(Seq<char>, Artifact)>, n: nat)
    requires
        0 < n <= all.len(),
    ensures
        super::deps_key(all, n) == cache::field_bytes(all[0].0, all[0].1.key) + super::deps_key(
            all.drop_first(),
            (n - 1) as nat,
        ),
    decreases n,
{
    let rest = all.drop_first();
    let head = cache::field_bytes(all[0].0, all[0].1.key);
    if n == 1 {
        assert(super::deps_key(all, 0) =~= seq![]);
        assert(super::deps_key(rest, 0) =~= seq![]);
        assert(super::deps_key(all, 1) =~= head + super::deps_key(rest, 0));
    } else {
        deps_from_the_first(all, (n - 1) as nat);
        let last = all[n - 1];
        assert(rest[n - 2] == last);
        assert(super::deps_key(all, n) =~= head + (super::deps_key(rest, (n - 2) as nat) + cache::field_bytes(
            last.0,
            last.1.key,
        )));
    }
}

/// Whether a dependency's name and key can stand in a key: neither holds a zero, and the name holds no
/// `=`, which is what ends it there.
pub open spec fn can_be_keyed(d: (Seq<char>, Artifact)) -> bool {
    !d.0.contains('=') && cache::unbroken(d.0) && cache::unbroken(d.1.key)
}

/// Whether two lists of dependencies have the same names and the same keys, in order.
pub open spec fn same_dependencies(a: Seq<(Seq<char>, Artifact)>, b: Seq<(Seq<char>, Artifact)>) -> bool {
    &&& a.len() == b.len()
    &&& forall|i: int| #![trigger a[i]] #![trigger b[i]]
        0 <= i < a.len() ==> a[i].0 == b[i].0 && a[i].1.key == b[i].1.key
}

proof fn dependencies_keep_apart(a: Seq<(Seq<char>, Artifact)>, b: Seq<(Seq<char>, Artifact)>)
    requires
        forall|i: int| 0 <= i < a.len() ==> can_be_keyed(#[trigger] a[i]),
        forall|i: int| 0 <= i < b.len() ==> can_be_keyed(#[trigger] b[i]),
        super::deps_key(a, a.len()) == super::deps_key(b, b.len()),
    ensures
        same_dependencies(a, b),
    decreases a.len(),
{
    if a.len() > 0 {
        deps_from_the_first(a, a.len());
        assert(super::deps_key(a, a.len()).len() > 0);
    }
    if b.len() > 0 {
        deps_from_the_first(b, b.len());
        assert(super::deps_key(b, b.len()).len() > 0);
    }
    if a.len() > 0 && b.len() > 0 {
        let (x, y) = (a.drop_first(), b.drop_first());
        assert(can_be_keyed(a[0]) && can_be_keyed(b[0]));
        cache::fields_keep_apart(
            a[0].0,
            a[0].1.key,
            b[0].0,
            b[0].1.key,
            super::deps_key(x, x.len()),
            super::deps_key(y, y.len()),
        );
        assert forall|i: int| 0 <= i < x.len() implies can_be_keyed(#[trigger] x[i]) by {
            assert(x[i] == a[i + 1]);
        }
        assert forall|i: int| 0 <= i < y.len() implies can_be_keyed(#[trigger] y[i]) by {
            assert(y[i] == b[i + 1]);
        }
        dependencies_keep_apart(x, y);
        assert forall|i: int| #![trigger a[i]] #![trigger b[i]]
            0 <= i < a.len() implies a[i].0 == b[i].0 && a[i].1.key == b[i].1.key by {
            if i > 0 {
                assert(x[i - 1] == a[i] && y[i - 1] == b[i]);
            }
        }
    }
}

/// A unit's key tells its dependencies apart: with everything else equal, what it is taken from is the
/// same only where both units depend on the same names with the same keys, in the same order. A
/// dependency that was built from anything else has another key, and so has what depends on it.
pub proof fn unit_keys_tell_dependencies_apart(
    b: Build,
    identity: Seq<char>,
    u: graph::Node,
    args: Seq<Seq<char>>,
    spec_file: Seq<u8>,
    scripts: Seq<Vec<u8>>,
    tree: Seq<cache::Leaf>,
    all: Seq<(Seq<char>, Artifact)>,
    other: Seq<(Seq<char>, Artifact)>,
)
    requires
        forall|i: int| 0 <= i < all.len() ==> can_be_keyed(#[trigger] all[i]),
        forall|i: int| 0 <= i < other.len() ==> can_be_keyed(#[trigger] other[i]),
        super::unit_key_of(b, identity, u, args, spec_file, scripts, tree, all) == super::unit_key_of(
            b,
            identity,
            u,
            args,
            spec_file,
            scripts,
            tree,
            other,
        ),
    ensures
        same_dependencies(all, other),
{
    let none = Seq::<(Seq<char>, Artifact)>::empty();
    let front = super::unit_key_of(b, identity, u, args, spec_file, scripts, tree, none);
    assert(super::deps_key(none, 0) =~= seq![]);
    let (x, y) = (super::deps_key(all, all.len()), super::deps_key(other, other.len()));
    assert(super::unit_key_of(b, identity, u, args, spec_file, scripts, tree, all) =~= front + x);
    assert(super::unit_key_of(b, identity, u, args, spec_file, scripts, tree, other) =~= front + y);
    bytes::parts_keep_apart(front, front, x, y);
    dependencies_keep_apart(all, other);
}

/// A unit's key tells the toolchain, the unit's name and its layer apart, whatever else is in it.
pub proof fn unit_keys_tell_units_apart(
    b: Build,
    identity: Seq<char>,
    u: graph::Node,
    args: Seq<Seq<char>>,
    spec_file: Seq<u8>,
    scripts: Seq<Vec<u8>>,
    tree: Seq<cache::Leaf>,
    all: Seq<(Seq<char>, Artifact)>,
    b2: Build,
    identity2: Seq<char>,
    u2: graph::Node,
    args2: Seq<Seq<char>>,
    spec_file2: Seq<u8>,
    scripts2: Seq<Vec<u8>>,
    tree2: Seq<cache::Leaf>,
    all2: Seq<(Seq<char>, Artifact)>,
)
    requires
        cache::unbroken(identity) && cache::unbroken(identity2),
        cache::unbroken(u.name) && cache::unbroken(u2.name),
        cache::unbroken(u.layer) && cache::unbroken(u2.layer),
        super::unit_key_of(b, identity, u, args, spec_file, scripts, tree, all) == super::unit_key_of(
            b2,
            identity2,
            u2,
            args2,
            spec_file2,
            scripts2,
            tree2,
            all2,
        ),
    ensures
        identity == identity2,
        u.name == u2.name,
        u.layer == u2.layer,
{
    let rest = behind_the_layer(b, u, args, spec_file, scripts, tree, all);
    let rest2 = behind_the_layer(b2, u2, args2, spec_file2, scripts2, tree2, all2);
    key_from_the_front(b, identity, u, args, spec_file, scripts, tree, all);
    key_from_the_front(b2, identity2, u2, args2, spec_file2, scripts2, tree2, all2);
    heads_keep_apart(identity, identity2, u.name, u2.name, u.layer, u2.layer, rest, rest2);
}

proof fn heads_keep_apart(
    identity: Seq<char>,
    identity2: Seq<char>,
    unit: Seq<char>,
    unit2: Seq<char>,
    level: Seq<char>,
    level2: Seq<char>,
    rest: Seq<u8>,
    rest2: Seq<u8>,
)
    requires
        cache::unbroken(identity) && cache::unbroken(identity2),
        cache::unbroken(unit) && cache::unbroken(unit2),
        cache::unbroken(level) && cache::unbroken(level2),
        cache::PREFIX@ + (cache::ended(identity) + (cache::field_bytes("unit"@, unit) + (cache::field_bytes(
            "layer"@,
            level,
        ) + rest))) == cache::PREFIX@ + (cache::ended(identity2) + (cache::field_bytes("unit"@, unit2) + (
        cache::field_bytes("layer"@, level2) + rest2))),
    ensures
        identity == identity2,
        unit == unit2,
        level == level2,
{
    let layer = cache::field_bytes("layer"@, level);
    let layer2 = cache::field_bytes("layer"@, level2);
    let name = cache::field_bytes("unit"@, unit);
    let name2 = cache::field_bytes("unit"@, unit2);
    let p = cache::PREFIX@;
    bytes::parts_keep_apart(
        p,
        p,
        cache::ended(identity) + (name + (layer + rest)),
        cache::ended(identity2) + (name2 + (layer2 + rest2)),
    );
    cache::texts_keep_apart(identity, identity2, name + (layer + rest), name2 + (layer2 + rest2));
    reveal_strlit("unit");
    reveal_strlit("layer");
    cache::fields_keep_apart("unit"@, unit, "unit"@, unit2, layer + rest, layer2 + rest2);
    cache::fields_keep_apart("layer"@, level, "layer"@, level2, rest, rest2);
}

proof fn nine_from_the_front(
    p: Seq<u8>,
    e: Seq<u8>,
    n: Seq<u8>,
    l: Seq<u8>,
    a: Seq<u8>,
    t: Seq<u8>,
    s: Seq<u8>,
    r: Seq<u8>,
    d: Seq<u8>,
)
    ensures
        p + e + n + l + a + t + s + r + d == p + (e + (n + (l + (a + t + s + r + d)))),
{
    assert(p + e + n + l + a + t + s + r + d =~= p + (e + (n + (l + (a + t + s + r + d)))));
}

proof fn key_from_the_front(
    b: Build,
    identity: Seq<char>,
    u: graph::Node,
    args: Seq<Seq<char>>,
    spec_file: Seq<u8>,
    scripts: Seq<Vec<u8>>,
    tree: Seq<cache::Leaf>,
    all: Seq<(Seq<char>, Artifact)>,
)
    ensures
        super::unit_key_of(b, identity, u, args, spec_file, scripts, tree, all) == cache::PREFIX@ + (cache::ended(identity)
            + (cache::field_bytes("unit"@, u.name) + (cache::field_bytes("layer"@, u.layer) + behind_the_layer(
            b,
            u,
            args,
            spec_file,
            scripts,
            tree,
            all,
        )))),
{
    reveal(behind_the_layer);
    nine_from_the_front(
        cache::PREFIX@,
        cache::ended(identity),
        cache::field_bytes("unit"@, u.name),
        cache::field_bytes("layer"@, u.layer),
        cache::args_bytes(args, args.len()),
        super::target_key(b.target, spec_file),
        if u.kind == Kind::Bin {
            super::files_key(scripts, scripts.len())
        } else {
            seq![]
        },
        cache::tree_bytes(cache::by_path(tree, tree.len()), tree.len()),
        super::deps_key(all, all.len()),
    );
}

#[verifier::opaque]
spec fn behind_the_layer(
    b: Build,
    u: graph::Node,
    args: Seq<Seq<char>>,
    spec_file: Seq<u8>,
    scripts: Seq<Vec<u8>>,
    tree: Seq<cache::Leaf>,
    all: Seq<(Seq<char>, Artifact)>,
) -> Seq<u8> {
    cache::args_bytes(args, args.len()) + super::target_key(b.target, spec_file) + (if u.kind == Kind::Bin {
        super::files_key(scripts, scripts.len())
    } else {
        seq![]
    }) + cache::tree_bytes(cache::by_path(tree, tree.len()), tree.len()) + super::deps_key(all, all.len())
}

/// A unit's key tells the arguments of the compiler apart, and their order.
pub proof fn unit_keys_tell_arguments_apart(
    b: Build,
    identity: Seq<char>,
    u: graph::Node,
    args: Seq<Seq<char>>,
    other: Seq<Seq<char>>,
    spec_file: Seq<u8>,
    scripts: Seq<Vec<u8>>,
    tree: Seq<cache::Leaf>,
    all: Seq<(Seq<char>, Artifact)>,
)
    requires
        forall|i: int| 0 <= i < args.len() ==> cache::unbroken(#[trigger] args[i]),
        forall|i: int| 0 <= i < other.len() ==> cache::unbroken(#[trigger] other[i]),
        super::unit_key_of(b, identity, u, args, spec_file, scripts, tree, all) == super::unit_key_of(
            b,
            identity,
            u,
            other,
            spec_file,
            scripts,
            tree,
            all,
        ),
    ensures
        args == other,
{
    let front = cache::PREFIX@ + cache::ended(identity) + cache::field_bytes("unit"@, u.name) + cache::field_bytes(
        "layer"@,
        u.layer,
    );
    let none = Seq::<Seq<char>>::empty();
    assert(cache::args_bytes(none, 0) =~= seq![]);
    reveal(behind_the_layer);
    let back = behind_the_layer(b, u, none, spec_file, scripts, tree, all);
    let (x, y) = (cache::args_bytes(args, args.len()), cache::args_bytes(other, other.len()));
    assert(super::unit_key_of(b, identity, u, args, spec_file, scripts, tree, all) =~= front + x + back);
    assert(super::unit_key_of(b, identity, u, other, spec_file, scripts, tree, all) =~= front + y + back);
    middles_keep_apart(front, x, y, back);
    cache::arguments_keep_apart(args, other);
}

/// A unit's key tells its sources apart: with everything else equal, both trees hold the same files at
/// the same paths with the same contents.
pub proof fn unit_keys_tell_sources_apart(
    b: Build,
    identity: Seq<char>,
    u: graph::Node,
    args: Seq<Seq<char>>,
    spec_file: Seq<u8>,
    scripts: Seq<Vec<u8>>,
    tree: Seq<cache::Leaf>,
    other: Seq<cache::Leaf>,
    all: Seq<(Seq<char>, Artifact)>,
    l: cache::Leaf,
)
    requires
        cache::paths_differ(tree),
        cache::paths_differ(other),
        forall|i: int| 0 <= i < tree.len() ==> cache::unbroken((#[trigger] tree[i]).path) && tree[i].data.len() <= u64::MAX,
        forall|i: int|
            0 <= i < other.len() ==> cache::unbroken((#[trigger] other[i]).path) && other[i].data.len() <= u64::MAX,
        super::unit_key_of(b, identity, u, args, spec_file, scripts, tree, all) == super::unit_key_of(
            b,
            identity,
            u,
            args,
            spec_file,
            scripts,
            other,
            all,
        ),
    ensures
        tree.contains(l) <==> other.contains(l),
{
    let front = cache::PREFIX@ + cache::ended(identity) + cache::field_bytes("unit"@, u.name) + cache::field_bytes(
        "layer"@,
        u.layer,
    ) + cache::args_bytes(args, args.len()) + super::target_key(b.target, spec_file) + (if u.kind == Kind::Bin {
        super::files_key(scripts, scripts.len())
    } else {
        seq![]
    });
    let back = super::deps_key(all, all.len());
    let (p, q) = (cache::by_path(tree, tree.len()), cache::by_path(other, other.len()));
    let (x, y) = (cache::tree_bytes(p, tree.len()), cache::tree_bytes(q, other.len()));
    assert(super::unit_key_of(b, identity, u, args, spec_file, scripts, tree, all) =~= front + x + back);
    assert(super::unit_key_of(b, identity, u, args, spec_file, scripts, other, all) =~= front + y + back);
    middles_keep_apart(front, x, y, back);
    cache::sorting_sorts(tree, tree.len());
    cache::sorting_sorts(other, other.len());
    assert(tree.take(tree.len() as int) =~= tree);
    assert(other.take(other.len() as int) =~= other);
    assert forall|i: int| 0 <= i < p.len() implies cache::unbroken((#[trigger] p[i]).path) && p[i].data.len()
        <= u64::MAX by {
        assert(p.contains(p[i]));
        let j = tree.index_of(p[i]);
        assert(tree[j] == p[i]);
    }
    assert forall|i: int| 0 <= i < q.len() implies cache::unbroken((#[trigger] q[i]).path) && q[i].data.len()
        <= u64::MAX by {
        assert(q.contains(q[i]));
        let j = other.index_of(q[i]);
        assert(other[j] == q[i]);
    }
    cache::trees_keep_apart(p, q);
    assert(p.contains(l) <==> q.contains(l));
}

proof fn files_from_the_first(files: Seq<Vec<u8>>, n: nat)
    requires
        0 < n <= files.len(),
    ensures
        super::files_key(files, n) == cache::file_bytes(files[0]@) + super::files_key(
            files.drop_first(),
            (n - 1) as nat,
        ),
    decreases n,
{
    let rest = files.drop_first();
    if n == 1 {
        assert(super::files_key(files, 0) =~= seq![]);
        assert(super::files_key(rest, 0) =~= seq![]);
        assert(super::files_key(files, 1) =~= cache::file_bytes(files[0]@) + super::files_key(rest, 0));
    } else {
        files_from_the_first(files, (n - 1) as nat);
        assert(rest[n - 2] == files[n - 1]);
        assert(super::files_key(files, n) =~= cache::file_bytes(files[0]@) + (super::files_key(rest, (n - 2) as nat)
            + cache::file_bytes(files[n - 1]@)));
    }
}

proof fn file_lists_keep_apart(a: Seq<Vec<u8>>, b: Seq<Vec<u8>>)
    requires
        forall|i: int| 0 <= i < a.len() ==> (#[trigger] a[i])@.len() <= u64::MAX,
        forall|i: int| 0 <= i < b.len() ==> (#[trigger] b[i])@.len() <= u64::MAX,
        super::files_key(a, a.len()) == super::files_key(b, b.len()),
    ensures
        a.len() == b.len(),
        forall|i: int| 0 <= i < a.len() ==> (#[trigger] a[i])@ == b[i]@,
    decreases a.len(),
{
    if a.len() > 0 {
        files_from_the_first(a, a.len());
        assert(super::files_key(a, a.len()).len() > 0);
    }
    if b.len() > 0 {
        files_from_the_first(b, b.len());
        assert(super::files_key(b, b.len()).len() > 0);
    }
    if a.len() > 0 && b.len() > 0 {
        let (x, y) = (a.drop_first(), b.drop_first());
        assert(a[0]@.len() <= u64::MAX && b[0]@.len() <= u64::MAX);
        cache::files_keep_apart(a[0]@, b[0]@, super::files_key(x, x.len()), super::files_key(y, y.len()));
        assert forall|i: int| 0 <= i < x.len() implies (#[trigger] x[i])@.len() <= u64::MAX by {
            assert(x[i] == a[i + 1]);
        }
        assert forall|i: int| 0 <= i < y.len() implies (#[trigger] y[i])@.len() <= u64::MAX by {
            assert(y[i] == b[i + 1]);
        }
        file_lists_keep_apart(x, y);
        assert forall|i: int| 0 <= i < a.len() implies (#[trigger] a[i])@ == b[i]@ by {
            if i > 0 {
                assert(x[i - 1] == a[i] && y[i - 1] == b[i]);
            }
        }
    }
}

/// An image's key tells its linker scripts apart.
pub proof fn image_keys_tell_scripts_apart(
    b: Build,
    identity: Seq<char>,
    u: graph::Node,
    args: Seq<Seq<char>>,
    spec_file: Seq<u8>,
    scripts: Seq<Vec<u8>>,
    other: Seq<Vec<u8>>,
    tree: Seq<cache::Leaf>,
    all: Seq<(Seq<char>, Artifact)>,
)
    requires
        u.kind == Kind::Bin,
        forall|i: int| 0 <= i < scripts.len() ==> (#[trigger] scripts[i])@.len() <= u64::MAX,
        forall|i: int| 0 <= i < other.len() ==> (#[trigger] other[i])@.len() <= u64::MAX,
        super::unit_key_of(b, identity, u, args, spec_file, scripts, tree, all) == super::unit_key_of(
            b,
            identity,
            u,
            args,
            spec_file,
            other,
            tree,
            all,
        ),
    ensures
        scripts.len() == other.len(),
        forall|i: int| 0 <= i < scripts.len() ==> (#[trigger] scripts[i])@ == other[i]@,
{
    let front = cache::PREFIX@ + cache::ended(identity) + cache::field_bytes("unit"@, u.name) + cache::field_bytes(
        "layer"@,
        u.layer,
    ) + cache::args_bytes(args, args.len()) + super::target_key(b.target, spec_file);
    let back = cache::tree_bytes(cache::by_path(tree, tree.len()), tree.len()) + super::deps_key(all, all.len());
    let (x, y) = (super::files_key(scripts, scripts.len()), super::files_key(other, other.len()));
    assert(super::unit_key_of(b, identity, u, args, spec_file, scripts, tree, all) =~= front + x + back);
    assert(super::unit_key_of(b, identity, u, args, spec_file, other, tree, all) =~= front + y + back);
    middles_keep_apart(front, x, y, back);
    file_lists_keep_apart(scripts, other);
}

/// A unit's key tells targets apart: a specification by what it says, a built-in one by its name.
pub proof fn unit_keys_tell_targets_apart(
    b: Build,
    b2: Build,
    identity: Seq<char>,
    u: graph::Node,
    args: Seq<Seq<char>>,
    spec_file: Seq<u8>,
    spec_file2: Seq<u8>,
    scripts: Seq<Vec<u8>>,
    tree: Seq<cache::Leaf>,
    all: Seq<(Seq<char>, Artifact)>,
)
    requires
        spec_file.len() <= u64::MAX,
        spec_file2.len() <= u64::MAX,
        super::unit_key_of(b, identity, u, args, spec_file, scripts, tree, all) == super::unit_key_of(
            b2,
            identity,
            u,
            args,
            spec_file2,
            scripts,
            tree,
            all,
        ),
    ensures
        b.target is Spec && b2.target is Spec ==> spec_file == spec_file2,
        b.target is Builtin && b2.target is Builtin && cache::unbroken(b.target->Builtin_0@) && cache::unbroken(
            b2.target->Builtin_0@,
        ) ==> b.target->Builtin_0@ == b2.target->Builtin_0@,
{
    let front = cache::PREFIX@ + cache::ended(identity) + cache::field_bytes("unit"@, u.name) + cache::field_bytes(
        "layer"@,
        u.layer,
    ) + cache::args_bytes(args, args.len());
    let back = (if u.kind == Kind::Bin {
        super::files_key(scripts, scripts.len())
    } else {
        seq![]
    }) + cache::tree_bytes(cache::by_path(tree, tree.len()), tree.len()) + super::deps_key(all, all.len());
    let (x, y) = (super::target_key(b.target, spec_file), super::target_key(b2.target, spec_file2));
    assert(super::unit_key_of(b, identity, u, args, spec_file, scripts, tree, all) =~= front + x + back);
    assert(super::unit_key_of(b2, identity, u, args, spec_file2, scripts, tree, all) =~= front + y + back);
    middles_keep_apart(front, x, y, back);
    let none = Seq::<u8>::empty();
    assert(x + none == y + none);
    if b.target is Spec && b2.target is Spec {
        cache::files_keep_apart(spec_file, spec_file2, none, none);
    }
    if b.target is Builtin && b2.target is Builtin && cache::unbroken(b.target->Builtin_0@) && cache::unbroken(
        b2.target->Builtin_0@,
    ) {
        reveal_strlit("builtin-target");
        cache::fields_keep_apart(
            "builtin-target"@,
            b.target->Builtin_0@,
            "builtin-target"@,
            b2.target->Builtin_0@,
            none,
            none,
        );
    }
}

/// The key of the generated configuration tells its text apart, and the keys of what it is compiled
/// against.
pub proof fn configuration_keys_tell_apart(
    identity: Seq<char>,
    args: Seq<Seq<char>>,
    src: Seq<u8>,
    core_key: Seq<char>,
    builtins_key: Seq<char>,
    src2: Seq<u8>,
    core_key2: Seq<char>,
    builtins_key2: Seq<char>,
)
    requires
        src.len() <= u64::MAX,
        src2.len() <= u64::MAX,
        cache::unbroken(core_key) && cache::unbroken(core_key2),
        cache::unbroken(builtins_key) && cache::unbroken(builtins_key2),
        super::kconfig_key_of(identity, args, src, core_key, builtins_key) == super::kconfig_key_of(
            identity,
            args,
            src2,
            core_key2,
            builtins_key2,
        ),
    ensures
        src == src2,
        core_key == core_key2,
        builtins_key == builtins_key2,
{
    let front = cache::PREFIX@ + cache::ended(identity) + cache::field_bytes("unit"@, "kconfig"@) + cache::args_bytes(
        args,
        args.len(),
    );
    let (c, c2) = (cache::field_bytes("core"@, core_key), cache::field_bytes("core"@, core_key2));
    let none = Seq::<u8>::empty();
    let (d, d2) = (
        cache::field_bytes("compiler_builtins"@, builtins_key) + none,
        cache::field_bytes("compiler_builtins"@, builtins_key2) + none,
    );
    assert(super::kconfig_key_of(identity, args, src, core_key, builtins_key) =~= front + (cache::file_bytes(src) + (c
        + d)));
    assert(super::kconfig_key_of(identity, args, src2, core_key2, builtins_key2) =~= front + (cache::file_bytes(src2) + (
    c2 + d2)));
    bytes::parts_keep_apart(front, front, cache::file_bytes(src) + (c + d), cache::file_bytes(src2) + (c2 + d2));
    cache::files_keep_apart(src, src2, c + d, c2 + d2);
    reveal_strlit("core");
    reveal_strlit("compiler_builtins");
    cache::fields_keep_apart("core"@, core_key, "core"@, core_key2, d, d2);
    cache::fields_keep_apart("compiler_builtins"@, builtins_key, "compiler_builtins"@, builtins_key2, none, none);
}

/// The key of `core` tells the toolchain, the arguments and the target's specification apart.
pub proof fn core_keys_tell_apart(
    b: Build,
    identity: Seq<char>,
    args: Seq<Seq<char>>,
    args2: Seq<Seq<char>>,
    spec_file: Seq<u8>,
    spec_file2: Seq<u8>,
)
    requires
        forall|i: int| 0 <= i < args.len() ==> cache::unbroken(#[trigger] args[i]),
        forall|i: int| 0 <= i < args2.len() ==> cache::unbroken(#[trigger] args2[i]),
        spec_file.len() <= u64::MAX,
        spec_file2.len() <= u64::MAX,
        super::core_key_of(b, identity, args, spec_file) == super::core_key_of(b, identity, args2, spec_file2),
    ensures
        spec_file == spec_file2 ==> args == args2,
        args == args2 && b.target is Spec ==> spec_file == spec_file2,
{
    let front = cache::PREFIX@ + cache::ended(identity) + cache::field_bytes("unit"@, "core"@);
    let (x, y) = (cache::args_bytes(args, args.len()), cache::args_bytes(args2, args2.len()));
    let (t, t2) = (super::target_key(b.target, spec_file), super::target_key(b.target, spec_file2));
    assert(super::core_key_of(b, identity, args, spec_file) =~= front + x + t);
    assert(super::core_key_of(b, identity, args2, spec_file2) =~= front + y + t2);
    let none = Seq::<u8>::empty();
    if spec_file == spec_file2 {
        middles_keep_apart(front, x, y, t);
        cache::arguments_keep_apart(args, args2);
    }
    if args == args2 && b.target is Spec {
        bytes::parts_keep_apart(front + x, front + x, t, t2);
        assert(t + none =~= t && t2 + none =~= t2);
        cache::files_keep_apart(spec_file, spec_file2, none, none);
    }
}

/// Whether `x` stands in a list with `y` right behind it.
pub open spec fn has_pair(s: Seq<Seq<char>>, x: Seq<char>, y: Seq<char>) -> bool {
    exists|k: int| 0 <= k && k + 1 < s.len() && #[trigger] s[k] == x && s[k + 1] == y
}

pub(crate) proof fn pairs_stay(front: Seq<Seq<char>>, s: Seq<Seq<char>>, back: Seq<Seq<char>>, x: Seq<char>, y: Seq<char>)
    requires
        has_pair(s, x, y),
    ensures
        has_pair(front + s + back, x, y),
{
    let k = choose|k: int| 0 <= k && k + 1 < s.len() && #[trigger] s[k] == x && s[k + 1] == y;
    let all = front + s + back;
    let j = front.len() + k;
    assert(all[j] == x && all[j + 1] == y);
}

proof fn flags_are_paired(flag: Seq<char>, values: Seq<Seq<char>>, n: nat, i: int)
    requires
        0 <= i < n <= values.len(),
    ensures
        has_pair(super::flagged(flag, values, n), flag, values[i]),
    decreases n,
{
    let before = super::flagged(flag, values, (n - 1) as nat);
    let all = super::flagged(flag, values, n);
    if i < n - 1 {
        flags_are_paired(flag, values, (n - 1) as nat, i);
        let none = Seq::<Seq<char>>::empty();
        pairs_stay(none, before, seq![flag, values[n - 1]], flag, values[i]);
        assert(all =~= none + before + seq![flag, values[n - 1]]);
    } else {
        let k = before.len() as int;
        assert(all[k] == flag && all[k + 1] == values[i]);
    }
}

proof fn dependencies_are_paired(
    all: Seq<(Seq<char>, Artifact)>,
    names: Seq<Seq<char>>,
    n: nat,
    i: int,
    x: Seq<char>,
    y: Seq<char>,
)
    requires
        0 <= i < n <= names.len(),
        super::dep_args(all, names[i]) == seq![x, y],
    ensures
        has_pair(super::deps_args(all, names, n), x, y),
    decreases n,
{
    let before = super::deps_args(all, names, (n - 1) as nat);
    let none = Seq::<Seq<char>>::empty();
    let last = super::dep_args(all, names[n - 1]);
    if i < n - 1 {
        dependencies_are_paired(all, names, (n - 1) as nat, i, x, y);
        pairs_stay(none, before, last, x, y);
        assert(super::deps_args(all, names, n) =~= none + before + last);
    } else {
        assert(last[0] == x && last[1] == y);
        assert(has_pair(last, x, y));
        pairs_stay(before, last, none, x, y);
        assert(super::deps_args(all, names, n) =~= before + last + none);
    }
}

proof fn the_first_artifact(all: Seq<(Seq<char>, Artifact)>, name: Seq<char>, j: int, i: int)
    requires
        0 <= i <= j < all.len(),
        all[j].0 == name,
        forall|k: int| i <= k < j ==> (#[trigger] all[k]).0 != name,
    ensures
        super::artifact(all, name, i) == Some(all[j].1),
    decreases j - i,
{
    if i < j {
        assert(all[i].0 != name);
        the_first_artifact(all, name, j, i + 1);
    }
}

/// The compiler is told every dependency that a unit declares, by the path of what was built for it: a
/// crate behind `--extern` under its own name, and a program that is embedded behind `--env-set` under
/// its variable.
pub proof fn the_compiler_is_told_every_dependency(
    b: Build,
    u: graph::Node,
    all: Seq<(Seq<char>, Artifact)>,
    kconfig: bool,
    d: int,
    j: int,
)
    requires
        0 <= d < u.deps.len(),
        0 <= j < all.len(),
        all[j].0 == u.deps[d],
        forall|k: int| 0 <= k < j ==> (#[trigger] all[k]).0 != u.deps[d],
    ensures
        match all[j].1.embed {
            None => has_pair(
                super::unit_args_of(b, u, all, kconfig),
                "--extern"@,
                super::crate_name(u.deps[d]) + "="@ + all[j].1.path,
            ),
            Some(var) => has_pair(
                super::unit_args_of(b, u, all, kconfig),
                "--env-set"@,
                var + "="@ + all[j].1.path,
            ),
        },
{
    let names = super::with_new(super::implicit(all), u.deps, u.deps.len());
    super::only_declared_dependencies_are_named(u, all);
    assert(names.contains(u.deps[d]));
    let i = choose|i: int| 0 <= i < names.len() && names[i] == u.deps[d];
    the_first_artifact(all, u.deps[d], j, 0);
    let (x, y) = match all[j].1.embed {
        None => ("--extern"@, super::crate_name(u.deps[d]) + "="@ + all[j].1.path),
        Some(var) => ("--env-set"@, var + "="@ + all[j].1.path),
    };
    assert(super::dep_args(all, names[i]) =~= seq![x, y]);
    dependencies_are_paired(all, names, names.len(), i, x, y);
    let (front, back) = around_dependencies(b, u, kconfig);
    pairs_stay(front, super::deps_args(all, names, names.len()), back, x, y);
    assert(super::unit_args_of(b, u, all, kconfig) =~= front + super::deps_args(all, names, names.len()) + back);
}

spec fn around_dependencies(b: Build, u: graph::Node, kconfig: bool) -> (Seq<Seq<char>>, Seq<Seq<char>>) {
    (
        super::common_args(b) + super::crate_args(u) + super::module_args(u) + super::flagged(
            "--cfg"@,
            text::views(b.cfgs@),
            b.cfgs@.len(),
        ) + text::views(b.check_cfgs@) + (if b.deny_warnings {
            seq!["-D"@, "warnings"@]
        } else {
            seq![]
        }),
        seq!["-L"@, b.out@] + (if kconfig {
            seq!["--extern"@, "kconfig="@ + graph::below(b.out@, "libkconfig.rlib"@)]
        } else {
            seq![]
        }) + super::link_args(b, u)->0 + u.rustflags.map_values(|f: Seq<char>| super::expanded(b, f)) + seq![
            graph::below(u.dir, u.root),
        ],
    )
}

/// A list of lists joined holds the pairs that any of them holds.
pub(crate) proof fn pairs_of_the_parts(
    a: Seq<Seq<char>>,
    b: Seq<Seq<char>>,
    c: Seq<Seq<char>>,
    d: Seq<Seq<char>>,
    e: Seq<Seq<char>>,
    f: Seq<Seq<char>>,
    x: Seq<char>,
    y: Seq<char>,
)
    requires
        has_pair(a, x, y) || has_pair(b, x, y) || has_pair(c, x, y) || has_pair(d, x, y) || has_pair(e, x, y)
            || has_pair(f, x, y),
    ensures
        has_pair(a + b + c + d + e + f, x, y),
{
    let none = Seq::<Seq<char>>::empty();
    let all = a + b + c + d + e + f;
    if has_pair(a, x, y) {
        pairs_stay(none, a, b + c + d + e + f, x, y);
        assert(all =~= none + a + (b + c + d + e + f));
    } else if has_pair(b, x, y) {
        pairs_stay(a, b, c + d + e + f, x, y);
        assert(all =~= a + b + (c + d + e + f));
    } else if has_pair(c, x, y) {
        pairs_stay(a + b, c, d + e + f, x, y);
        assert(all =~= a + b + c + (d + e + f));
    } else if has_pair(d, x, y) {
        pairs_stay(a + b + c, d, e + f, x, y);
        assert(all =~= a + b + c + d + (e + f));
    } else if has_pair(e, x, y) {
        pairs_stay(a + b + c + d, e, f, x, y);
    } else {
        pairs_stay(a + b + c + d + e, f, none, x, y);
        assert(all =~= a + b + c + d + e + f + none);
    }
}

proof fn arguments_fall_into_two(
    a: Seq<Seq<char>>,
    b: Seq<Seq<char>>,
    c: Seq<Seq<char>>,
    d: Seq<Seq<char>>,
    e: Seq<Seq<char>>,
    f: Seq<Seq<char>>,
    g: Seq<Seq<char>>,
    h: Seq<Seq<char>>,
    i: Seq<Seq<char>>,
    j: Seq<Seq<char>>,
    k: Seq<Seq<char>>,
    l: Seq<Seq<char>>,
)
    ensures
        a + b + c + d + e + f + g + h + i + j + k + l == (a + b + c + d + e + f) + (g + h + i + j + k + l),
{
    assert(a + b + c + d + e + f + g + h + i + j + k + l =~= (a + b + c + d + e + f) + (g + h + i + j + k + l));
}

/// What the arguments are made of, and that a pair of any part is a pair of the whole.
proof fn arguments_hold_their_parts(
    b: Build,
    u: graph::Node,
    all: Seq<(Seq<char>, Artifact)>,
    kconfig: bool,
    x: Seq<char>,
    y: Seq<char>,
)
    requires
        has_pair(super::common_args(b), x, y) || has_pair(super::crate_args(u), x, y) || has_pair(
            super::module_args(u),
            x,
            y,
        ) || has_pair(super::flagged("--cfg"@, text::views(b.cfgs@), b.cfgs@.len()), x, y) || (b.deny_warnings && has_pair(
            seq!["-D"@, "warnings"@],
            x,
            y,
        )) || has_pair(seq!["-L"@, b.out@], x, y) || (kconfig && has_pair(
            seq!["--extern"@, "kconfig="@ + graph::below(b.out@, "libkconfig.rlib"@)],
            x,
            y,
        )) || has_pair(super::link_args(b, u)->0, x, y),
    ensures
        has_pair(super::unit_args_of(b, u, all, kconfig), x, y),
{
    let names = super::with_new(super::implicit(all), u.deps, u.deps.len());
    let deps = super::deps_args(all, names, names.len());
    let none = Seq::<Seq<char>>::empty();
    let common = super::common_args(b);
    let own = super::crate_args(u);
    let module = super::module_args(u);
    let cfgs = super::flagged("--cfg"@, text::views(b.cfgs@), b.cfgs@.len());
    let checks = text::views(b.check_cfgs@);
    let deny = if b.deny_warnings {
        seq!["-D"@, "warnings"@]
    } else {
        seq![]
    };
    let found = seq!["-L"@, b.out@];
    let generated = if kconfig {
        seq!["--extern"@, "kconfig="@ + graph::below(b.out@, "libkconfig.rlib"@)]
    } else {
        seq![]
    };
    let link = super::link_args(b, u)->0;
    let flags = u.rustflags.map_values(|f: Seq<char>| super::expanded(b, f));
    let root = seq![graph::below(u.dir, u.root)];
    arguments_fall_into_two(common, own, module, cfgs, checks, deny, deps, found, generated, link, flags, root);
    let front = common + own + module + cfgs + checks + deny;
    let back = deps + found + generated + link + flags + root;
    assert(super::unit_args_of(b, u, all, kconfig) == front + back);
    if has_pair(common, x, y) || has_pair(own, x, y) || has_pair(module, x, y) || has_pair(cfgs, x, y) || has_pair(
        deny,
        x,
        y,
    ) {
        pairs_of_the_parts(common, own, module, cfgs, checks, deny, x, y);
        pairs_stay(none, front, back, x, y);
        assert(none + front + back =~= front + back);
    } else {
        pairs_of_the_parts(deps, found, generated, link, flags, root, x, y);
        pairs_stay(front, back, none, x, y);
        assert(front + back + none =~= front + back);
    }
}

pub(crate) proof fn a_pair_stands(s: Seq<Seq<char>>, k: int)
    requires
        0 <= k,
        k + 1 < s.len(),
    ensures
        has_pair(s, s[k], s[k + 1]),
{
}

/// The compiler is told the target, the level of optimisation, what kind of crate a unit makes and its
/// name.
pub proof fn the_compiler_is_told_the_unit(b: Build, u: graph::Node, all: Seq<(Seq<char>, Artifact)>, kconfig: bool)
    ensures
        ({
            let a = super::unit_args_of(b, u, all, kconfig);
            &&& has_pair(a, "--edition"@, "2024"@)
            &&& has_pair(a, "--target"@, super::target_arg(b.target))
            &&& has_pair(a, "-C"@, "opt-level="@ + b.opt_level@)
            &&& has_pair(a, "-C"@, "panic=abort"@)
            &&& has_pair(a, "--remap-path-prefix"@, b.root@ + "=/kintane"@)
            &&& has_pair(
                a,
                "--crate-type"@,
                match u.kind {
                    Kind::Lib => "rlib"@,
                    Kind::Bin => "bin"@,
                    Kind::User => "bin"@,
                    Kind::Module => "staticlib"@,
                },
            )
            &&& has_pair(a, "--crate-name"@, super::crate_name(u.name))
            &&& u.kind == Kind::Module ==> has_pair(a, "-C"@, "lto=fat"@)
            &&& b.bitcode ==> has_pair(a, "-C"@, "embed-bitcode=yes"@)
            &&& !b.bitcode ==> has_pair(a, "-C"@, "embed-bitcode=no"@)
        }),
{
    let common = super::common_args(b);
    let own = super::crate_args(u);
    let module = super::module_args(u);
    a_pair_stands(common, 0);
    arguments_hold_their_parts(b, u, all, kconfig, common[0], common[1]);
    a_pair_stands(common, 4);
    arguments_hold_their_parts(b, u, all, kconfig, common[4], common[5]);
    a_pair_stands(common, 8);
    arguments_hold_their_parts(b, u, all, kconfig, common[8], common[9]);
    a_pair_stands(common, 6);
    arguments_hold_their_parts(b, u, all, kconfig, common[6], common[7]);
    a_pair_stands(common, 14);
    arguments_hold_their_parts(b, u, all, kconfig, common[14], common[15]);
    a_pair_stands(common, 16);
    arguments_hold_their_parts(b, u, all, kconfig, common[16], common[17]);
    a_pair_stands(own, 0);
    arguments_hold_their_parts(b, u, all, kconfig, own[0], own[1]);
    a_pair_stands(own, 2);
    arguments_hold_their_parts(b, u, all, kconfig, own[2], own[3]);
    if u.kind == Kind::Module {
        a_pair_stands(module, 0);
        arguments_hold_their_parts(b, u, all, kconfig, module[0], module[1]);
    }
}

/// The compiler is told every `cfg` of the configuration, to deny warnings where the build does, where
/// to look for crates, the linker script of an image and, last, the file that the unit starts from.
pub proof fn the_compiler_is_told_the_configuration(
    b: Build,
    u: graph::Node,
    all: Seq<(Seq<char>, Artifact)>,
    kconfig: bool,
    i: int,
)
    ensures
        ({
            let a = super::unit_args_of(b, u, all, kconfig);
            &&& b.deny_warnings ==> has_pair(a, "-D"@, "warnings"@)
            &&& has_pair(a, "-L"@, b.out@)
            &&& 0 <= i < b.cfgs@.len() ==> has_pair(a, "--cfg"@, b.cfgs@[i]@)
            &&& a.len() > 0
            &&& a.last() == graph::below(u.dir, u.root)
            &&& kconfig ==> has_pair(a, "--extern"@, "kconfig="@ + graph::below(b.out@, "libkconfig.rlib"@))
            &&& u.kind == Kind::Bin && b.target is Spec && b.link_script is Some ==> has_pair(
                a,
                "-C"@,
                "link-arg=-T"@ + b.link_script->0@,
            )
        }),
{
    if b.deny_warnings {
        a_pair_stands(seq!["-D"@, "warnings"@], 0);
        arguments_hold_their_parts(b, u, all, kconfig, "-D"@, "warnings"@);
    }
    a_pair_stands(seq!["-L"@, b.out@], 0);
    arguments_hold_their_parts(b, u, all, kconfig, "-L"@, b.out@);
    if 0 <= i < b.cfgs@.len() {
        flags_are_paired("--cfg"@, text::views(b.cfgs@), b.cfgs@.len(), i);
        arguments_hold_their_parts(b, u, all, kconfig, "--cfg"@, b.cfgs@[i]@);
    }
    if kconfig {
        let said = "kconfig="@ + graph::below(b.out@, "libkconfig.rlib"@);
        a_pair_stands(seq!["--extern"@, said], 0);
        arguments_hold_their_parts(b, u, all, kconfig, "--extern"@, said);
    }
    if u.kind == Kind::Bin && b.target is Spec && b.link_script is Some {
        let link = super::link_args(b, u)->0;
        a_pair_stands(link, 0);
        arguments_hold_their_parts(b, u, all, kconfig, link[0], link[1]);
    }
    the_root_comes_last(b, u, all, kconfig);
}

proof fn the_root_comes_last(b: Build, u: graph::Node, all: Seq<(Seq<char>, Artifact)>, kconfig: bool)
    ensures
        super::unit_args_of(b, u, all, kconfig).len() > 0,
        super::unit_args_of(b, u, all, kconfig).last() == graph::below(u.dir, u.root),
{
}

/// A crate's name is its unit's, with `_` wherever that has `-`.
pub proof fn crates_are_named_after_units(unit: Seq<char>, i: int)
    requires
        0 <= i < unit.len(),
    ensures
        super::crate_name(unit).len() == unit.len(),
        unit[i] == '-' ==> super::crate_name(unit)[i] == '_',
        unit[i] != '-' ==> super::crate_name(unit)[i] == unit[i],
{
}

} // verus!
