//! What is picked out of a list, of bytes or of a header, said of the list, the bytes and the header
//! themselves.

use vstd::prelude::*;
use vstd::string::*;

use crate::bootcfg;
use crate::build;
use crate::build::derived;
use crate::build::keys;
use crate::build::package;
use crate::bytes;
use crate::diskcheck;
use crate::fuzz;
use crate::graph;
use crate::hosttest;
use crate::hosttest::HostBuild;
use crate::kcfg;
use crate::kcfg::expr::Tri;
use crate::kcfg::resolve;
use crate::modules;
use crate::pe;
use crate::portable;
use crate::qemu::services;
use crate::qemu::wire;
use crate::text;

verus! {

/// Whether what is searched for is what stands in a place.
pub open spec fn reads<T>(hay: Seq<T>, at: int, needle: Seq<T>) -> bool {
    at + needle.len() <= hay.len() && forall|k: int| 0 <= k < needle.len() ==> hay[at + k] == #[trigger] needle[k]
}

proof fn standing_is_reading<T>(hay: Seq<T>, at: int, needle: Seq<T>)
    requires
        0 <= at,
    ensures
        reads(hay, at, needle) == bytes::stands_at(hay, at, needle),
{
    if at + needle.len() <= hay.len() {
        let there = hay.subrange(at, at + needle.len());
        if reads(hay, at, needle) {
            assert(there =~= needle);
        }
        if bytes::stands_at(hay, at, needle) {
            assert forall|k: int| 0 <= k < needle.len() implies hay[at + k] == #[trigger] needle[k] by {
                assert(there[k] == hay[at + k]);
            }
        }
    }
}

/// What is searched for is found where it first stands, and not found only where it stands nowhere.
pub proof fn the_first_place_is_found<T>(hay: Seq<T>, needle: Seq<T>, i: int)
    requires
        0 <= i,
    ensures
        match bytes::find(hay, needle, i) {
            Some(at) => i <= at && reads(hay, at, needle) && forall|j: int| i <= j < at ==> !#[trigger] reads(hay, j, needle),
            None => forall|j: int| i <= j ==> !#[trigger] reads(hay, j, needle),
        },
    decreases hay.len() - i,
{
    standing_is_reading(hay, i, needle);
    if i + needle.len() <= hay.len() && !bytes::stands_at(hay, i, needle) {
        if i < hay.len() {
            the_first_place_is_found(hay, needle, i + 1);
        }
    }
}

/// All the places where something stands are found, each once and in order.
pub proof fn every_place_is_found<T>(hay: Seq<T>, needle: Seq<T>, i: int, at: int)
    requires
        0 <= i,
        needle.len() > 0,
    ensures
        bytes::places(hay, needle, i).contains(at) <==> i <= at && reads(hay, at, needle),
        forall|a: int, b: int|
            0 <= a < b < bytes::places(hay, needle, i).len() ==> #[trigger] bytes::places(hay, needle, i)[a]
                < #[trigger] bytes::places(hay, needle, i)[b],
    decreases hay.len() - i,
{
    let all = bytes::places(hay, needle, i);
    standing_is_reading(hay, i, needle);
    if i + needle.len() <= hay.len() {
        every_place_is_found(hay, needle, i + 1, at);
        let rest = bytes::places(hay, needle, i + 1);
        if bytes::stands_at(hay, i, needle) {
            assert(all == seq![i] + rest);
            assert(all[0] == i);
            if rest.contains(at) {
                let k = rest.index_of(at);
                assert(all[k + 1] == at);
            }
            assert forall|a: int, b: int| 0 <= a < b < all.len() implies #[trigger] all[a] < #[trigger] all[b] by {
                assert(all[b] == rest[b - 1]);
                if a == 0 {
                    every_place_is_found(hay, needle, i + 1, rest[b - 1]);
                    assert(rest.contains(rest[b - 1]));
                } else {
                    assert(all[a] == rest[a - 1]);
                }
            }
        }
    }
}

/// Rounding up gives the least multiple that is not below.
pub proof fn rounding_up_gives_the_next_multiple(v: int, to: int)
    requires
        0 <= v,
        0 < to <= u64::MAX,
        pe::aligned(v, to) is Ok,
    ensures
        pe::aligned(v, to)->Ok_0 % to == 0,
        v <= pe::aligned(v, to)->Ok_0 < v + to,
{
    let s = v + to - 1;
    vstd::arithmetic::div_mod::lemma_fundamental_div_mod(s, to);
    vstd::arithmetic::mul::lemma_mul_is_commutative(s / to, to);
    vstd::arithmetic::div_mod::lemma_mod_multiples_basic(s / to, to);
    vstd::arithmetic::div_mod::lemma_mod_bound(s, to);
}

/// An alignment is a power of two: one with a single bit is taken, and one with two is refused.
pub proof fn alignments_have_one_bit(x: u64, a: u64, b: u64)
    requires
        a < b < 64,
    ensures
        pe::one_bit(1u64 << a),
        x & (1u64 << a) != 0 && x & (1u64 << b) != 0 ==> !pe::one_bit(x),
        !pe::one_bit(0),
{
    assert((1u64 << a) != 0 && (1u64 << a) & (((1u64 << a) - 1) as u64) == 0) by (bit_vector)
        requires
            a < 64,
    ;
    assert(x & (1u64 << a) != 0 && x & (1u64 << b) != 0 ==> x & ((x - 1) as u64) != 0) by (bit_vector)
        requires
            a < b,
            b < 64,
    ;
}

/// The headers of a PE image are read where they stand.
pub proof fn pe_headers_are_read_where_they_stand(d: Seq<u8>)
    requires
        pe::geometry(d) is Ok,
    ensures
        ({
            let g = pe::geometry(d)->Ok_0;
            let at = bytes::le32(d, 60);
            &&& d[0] == 0x4d && d[1] == 0x5a
            &&& d[at] == 0x50 && d[at + 1] == 0x45 && d[at + 2] == 0 && d[at + 3] == 0
            &&& bytes::le16(d, at + 24) == 0x20b
            &&& g.pe == at
            &&& g.sections == bytes::le16(d, at + 6)
            &&& g.table == at + 24 + bytes::le16(d, at + 20)
            &&& g.section_alignment == bytes::le32(d, at + 56)
            &&& g.file_alignment == bytes::le32(d, at + 60)
            &&& g.size_of_image == bytes::le32(d, at + 80)
            &&& g.size_of_headers == bytes::le32(d, at + 84)
        }),
{
    let at = bytes::le32(d, 60);
    let two: int = 2;
    assert(d.subrange(0, two)[0] == pe::dos_signature()[0] && d.subrange(0, two)[1] == pe::dos_signature()[1]);
    let four = d.subrange(at, at + 4);
    assert(four == pe::pe_signature());
    assert(four[0] == 0x50 && four[1] == 0x45 && four[2] == 0 && four[3] == 0);
}

proof fn names_end(raw: Seq<u8>, i: int)
    requires
        0 <= i <= raw.len(),
    ensures
        i <= pe::zero_from(raw, i) <= raw.len(),
        pe::zero_from(raw, i) < raw.len() ==> raw[pe::zero_from(raw, i)] == 0,
        forall|j: int| i <= j < pe::zero_from(raw, i) ==> #[trigger] raw[j] != 0,
    decreases raw.len() - i,
{
    if i < raw.len() && raw[i] != 0 {
        names_end(raw, i + 1);
    }
}

/// The sections of a PE image are listed in the order of their headers, each with its name, its address
/// and its size where the header holds them.
pub proof fn pe_sections_are_read_where_they_stand(d: Seq<u8>, at: int, n: int, i: int, k: int)
    requires
        0 <= at,
        0 <= i <= k < n,
        pe::listed(d, at, n, i) is Ok,
    ensures
        ({
            let all = pe::listed(d, at, n, i)->Ok_0;
            let h = at + k * 40;
            let s = all[k - i];
            &&& all.len() == n - i
            &&& s.size == bytes::le32(d, h + 8)
            &&& s.address == bytes::le32(d, h + 12)
            &&& s.name.len() <= 8
            &&& s.name.len() < 8 ==> d[h + s.name.len()] == 0
            &&& forall|j: int|
                0 <= j < s.name.len() ==> #[trigger] s.name[j] == d[h + j] as char && d[h + j] != 0
        }),
    decreases n - i,
{
    let h = at + i * 40;
    let all = pe::listed(d, at, n, i)->Ok_0;
    let rest = pe::listed(d, at, n, i + 1)->Ok_0;
    assert(i * 40 >= 0);
    assert(all == seq![pe::section_at(d, h)] + rest);
    assert(pe::SECTION_HEADER == 40);
    if i == n - 1 {
        assert(pe::listed(d, at, n, n) == Ok::<Seq<pe::Section>, Seq<char>>(seq![]));
        assert(rest.len() == 0);
    } else {
        pe_sections_are_read_where_they_stand(
            d,
            at,
            n,
            i + 1,
            if k > i {
                k
            } else {
                i + 1
            },
        );
    }
    assert(all.len() == n - i);
    if k > i {
        assert(all[k - i] == rest[k - i - 1]);
    } else {
        let raw = d.subrange(h, h + 8);
        names_end(raw, 0);
        let s = all[0];
        assert(s == pe::section_at(d, h));
        assert(s.name =~= text::as_chars(raw.subrange(0, pe::zero_from(raw, 0))));
        assert forall|j: int| 0 <= j < s.name.len() implies #[trigger] s.name[j] == d[h + j] as char && d[h + j]
            != 0 by {
            assert(raw[j] != 0);
            assert(raw[j] == d[h + j]);
        }
        if s.name.len() < 8 {
            assert(raw[s.name.len() as int] == d[h + s.name.len()]);
        }
    }
}

/// Settings for a module are a symbol and a value with an equals sign between them, the first in the line:
/// every line is one, or they are refused.
pub proof fn overrides_split_at_the_first_equals(lines: Seq<Seq<char>>, manifest: Seq<char>, n: nat)
    requires
        n <= lines.len(),
    ensures
        match modules::overrides_in(lines, manifest, n) {
            Ok(all) => all.len() == n && forall|i: int|
                0 <= i < n ==> #[trigger] lines[i] == all[i].0 + seq!['='] + all[i].1 && !all[i].0.contains('='),
            Err(_) => exists|i: int| 0 <= i < n && !(#[trigger] lines[i]).contains('='),
        },
    decreases n,
{
    if n > 0 {
        overrides_split_at_the_first_equals(lines, manifest, (n - 1) as nat);
        let l = lines[n - 1];
        let at = text::next_of(l, '=', 0);
        equals_are_next(l, 0);
        match modules::overrides_in(lines, manifest, (n - 1) as nat) {
            Ok(before) => {
                if at < l.len() {
                    let (x, y) = (l.subrange(0, at), l.subrange(at + 1, l.len() as int));
                    assert(l =~= x + seq!['='] + y);
                    let all = before.push((x, y));
                    assert forall|i: int| 0 <= i < n implies #[trigger] lines[i] == all[i].0 + seq!['='] + all[i].1
                        && !all[i].0.contains('=') by {
                        if i < n - 1 {
                            assert(all[i] == before[i]);
                        } else {
                            assert(all[i] == (x, y));
                        }
                    }
                } else {
                    assert(!l.contains('='));
                }
            },
            Err(_) => {
                let i = choose|i: int| 0 <= i < n - 1 && !(#[trigger] lines[i]).contains('=');
                assert(0 <= i < n && !lines[i].contains('='));
            },
        }
    }
}

proof fn equals_are_next(l: Seq<char>, i: int)
    requires
        0 <= i <= l.len(),
    ensures
        i <= text::next_of(l, '=', i) <= l.len(),
        text::next_of(l, '=', i) < l.len() ==> l[text::next_of(l, '=', i)] == '=',
        forall|j: int| i <= j < text::next_of(l, '=', i) ==> #[trigger] l[j] != '=',
    decreases l.len() - i,
{
    if i < l.len() && l[i] != '=' {
        equals_are_next(l, i + 1);
    }
}

/// A setting for a module means its value, and an exclamation mark the opposite of what the kernel has.
pub proof fn exclamation_marks_turn_over(o: resolve::Outcome, symbol: Seq<char>, value: Seq<char>)
    ensures
        value != "!"@ ==> modules::meant(o, symbol, value) == value,
        value == "!"@ && resolve::tri_in(o.names, o.vals, symbol) == Tri::N ==> modules::meant(o, symbol, value) == "y"@,
        value == "!"@ && resolve::tri_in(o.names, o.vals, symbol) != Tri::N ==> modules::meant(o, symbol, value) == "n"@,
{
}

/// The symbol that is complained of is the first that the table does not hold.
pub proof fn the_first_unknown_symbol_is_named(t: kcfg::Table, settings: Seq<(Seq<char>, Seq<char>)>, n: nat, k: int)
    requires
        0 <= k < n <= settings.len(),
        kcfg::sym_from(t.symbols, settings[k].0, 0) is None,
        forall|j: int| 0 <= j < k ==> kcfg::sym_from(t.symbols, (#[trigger] settings[j]).0, 0) is Some,
    ensures
        modules::unknown(t, settings, n) == Some(settings[k].0),
    decreases n,
{
    if n == k + 1 {
        nothing_is_unknown(t, settings, k as nat);
    } else {
        the_first_unknown_symbol_is_named(t, settings, (n - 1) as nat, k);
    }
}

proof fn nothing_is_unknown(t: kcfg::Table, settings: Seq<(Seq<char>, Seq<char>)>, n: nat)
    requires
        n <= settings.len(),
        forall|j: int| 0 <= j < n ==> kcfg::sym_from(t.symbols, (#[trigger] settings[j]).0, 0) is Some,
    ensures
        modules::unknown(t, settings, n) is None,
    decreases n,
{
    if n > 0 {
        assert(kcfg::sym_from(t.symbols, settings[n - 1].0, 0) is Some);
        nothing_is_unknown(t, settings, (n - 1) as nat);
    }
}

/// The units that are portable are those that are tested on the host, and what they depend on, however far:
/// with a unit all its dependencies are needed, and what is needed is kept, in order.
pub proof fn what_is_needed_is_kept(units: Seq<graph::Node>, n: nat, i: int, k: int)
    requires
        0 <= i < n <= units.len(),
        0 <= k < units[i].deps.len(),
    ensures
        units[i].host_tests ==> portable::needed(units, units[i].name),
        portable::needed(units, units[i].name) ==> portable::needed(units, units[i].deps[k]),
        portable::needed(units, units[i].name) ==> portable::closure(units, n).contains(units[i]),
        forall|j: int|
            0 <= j < portable::closure(units, n).len() ==> portable::needed(
                units,
                (#[trigger] portable::closure(units, n)[j]).name,
            ),
{
    if units[i].host_tests {
        assert(portable::begins(units, units[i].name));
        portable::chains_begin(units, units[i].name);
    }
    if portable::needed(units, units[i].name) {
        let (a, b) = (i, k);
        assert(units[a].deps[b] == units[i].deps[k]);
        assert(portable::leads(units, units[i].name, units[i].deps[k]));
        portable::chains_grow(units, units[i].name, units[i].deps[k]);
    }
    closures_keep(units, n, i);
}

proof fn closures_keep(units: Seq<graph::Node>, n: nat, i: int)
    requires
        0 <= i < n <= units.len(),
    ensures
        portable::needed(units, units[i].name) ==> portable::closure(units, n).contains(units[i]),
        forall|j: int|
            0 <= j < portable::closure(units, n).len() ==> portable::needed(
                units,
                (#[trigger] portable::closure(units, n)[j]).name,
            ),
    decreases n,
{
    let all = portable::closure(units, n);
    let before = portable::closure(units, (n - 1) as nat);
    if n == 1 {
        assert(before.len() == 0);
    } else {
        closures_keep(
            units,
            (n - 1) as nat,
            if i < n - 1 {
                i
            } else {
                0
            },
        );
    }
    if portable::needed(units, units[n - 1].name) {
        assert(all == before.push(units[n - 1]));
        assert(all[before.len() as int] == units[n - 1]);
        if i < n - 1 && portable::needed(units, units[i].name) {
            let q = before.index_of(units[i]);
            assert(all[q] == units[i]);
        }
    }
}

/// A unit whose dependency is broken names the first of them.
pub proof fn the_first_broken_dependency_is_named(broken: Seq<(String, String)>, deps: Seq<Seq<char>>, n: nat, k: int)
    requires
        0 <= k < n <= deps.len(),
        portable::is_broken(broken, deps[k]),
        forall|j: int| 0 <= j < k ==> !portable::is_broken(broken, #[trigger] deps[j]),
    ensures
        portable::broken_dep(broken, deps, n) == Some(deps[k]),
    decreases n,
{
    if n == k + 1 {
        nothing_is_broken(broken, deps, k as nat);
    } else {
        the_first_broken_dependency_is_named(broken, deps, (n - 1) as nat, k);
    }
}

proof fn nothing_is_broken(broken: Seq<(String, String)>, deps: Seq<Seq<char>>, n: nat)
    requires
        n <= deps.len(),
        forall|j: int| 0 <= j < n ==> !portable::is_broken(broken, #[trigger] deps[j]),
    ensures
        portable::broken_dep(broken, deps, n) is None,
    decreases n,
{
    if n > 0 {
        assert(!portable::is_broken(broken, deps[n - 1]));
        nothing_is_broken(broken, deps, (n - 1) as nat);
    }
}

/// The units whose tests are wanted are those that have tests for the host and whose names hold what was
/// asked for, in their order.
pub proof fn tests_are_wanted_by_name(units: Seq<graph::Node>, filter: Option<Seq<char>>, n: nat, i: int)
    requires
        n <= units.len(),
    ensures
        hosttest::wanted_of(units, filter, n).contains(i) <==> {
            &&& 0 <= i < n
            &&& units[i].host_tests
            &&& filter is Some ==> exists|k: int| 0 <= k && #[trigger] reads(units[i].name, k, filter->0)
        },
        forall|a: int, b: int|
            0 <= a < b < hosttest::wanted_of(units, filter, n).len() ==> #[trigger] hosttest::wanted_of(
                units,
                filter,
                n,
            )[a] < #[trigger] hosttest::wanted_of(units, filter, n)[b],
    decreases n,
{
    wanted_are_below(units, filter, n);
    if n > 0 {
        let all = hosttest::wanted_of(units, filter, n);
        let before = hosttest::wanted_of(units, filter, (n - 1) as nat);
        tests_are_wanted_by_name(units, filter, (n - 1) as nat, i);
        wanted_are_below(units, filter, (n - 1) as nat);
        if filter is Some {
            the_first_place_is_found(units[n - 1].name, filter->0, 0);
        }
        if hosttest::asked(units[n - 1], filter) {
            assert(all == before.push(n - 1));
            assert(all[before.len() as int] == n - 1);
            if before.contains(i) {
                let q = before.index_of(i);
                assert(all[q] == i);
            }
            if filter is Some {
                let at = bytes::find(units[n - 1].name, filter->0, 0)->0;
                assert(reads(units[n - 1].name, at, filter->0));
            }
        }
    }
}

proof fn wanted_are_below(units: Seq<graph::Node>, filter: Option<Seq<char>>, n: nat)
    requires
        n <= units.len(),
    ensures
        forall|a: int|
            0 <= a < hosttest::wanted_of(units, filter, n).len() ==> 0 <= #[trigger] hosttest::wanted_of(
                units,
                filter,
                n,
            )[a] < n,
    decreases n,
{
    if n > 0 {
        wanted_are_below(units, filter, (n - 1) as nat);
        let all = hosttest::wanted_of(units, filter, n);
        let before = hosttest::wanted_of(units, filter, (n - 1) as nat);
        assert forall|a: int| 0 <= a < all.len() implies 0 <= #[trigger] all[a] < n by {
            if a < before.len() {
                assert(all[a] == before[a]);
            } else {
                assert(all == before.push(n - 1));
            }
        }
    }
}

proof fn the_first_path(paths: Seq<(Seq<char>, Seq<char>)>, name: Seq<char>, j: int, i: int)
    requires
        0 <= i <= j < paths.len(),
        paths[j].0 == name,
        forall|k: int| i <= k < j ==> (#[trigger] paths[k]).0 != name,
    ensures
        hosttest::path_of(paths, name, i) == Some(paths[j].1),
    decreases j - i,
{
    if i < j {
        assert(paths[i].0 != name);
        the_first_path(paths, name, j, i + 1);
    }
}

proof fn host_dependencies_are_paired(paths: Seq<(Seq<char>, Seq<char>)>, deps: Seq<Seq<char>>, n: nat, d: int)
    requires
        0 <= d < n <= deps.len(),
        hosttest::path_of(paths, deps[d], 0) is Some,
    ensures
        keys::has_pair(
            hosttest::deps_args(paths, deps, n),
            "--extern"@,
            build::crate_name(deps[d]) + "="@ + hosttest::path_of(paths, deps[d], 0)->0,
        ),
    decreases n,
{
    let (x, y) = ("--extern"@, build::crate_name(deps[d]) + "="@ + hosttest::path_of(paths, deps[d], 0)->0);
    let before = hosttest::deps_args(paths, deps, (n - 1) as nat);
    let all = hosttest::deps_args(paths, deps, n);
    if d == n - 1 {
        assert(all == before.push(x).push(y));
        let k = before.len() as int;
        assert(all[k] == x && all[k + 1] == y);
    } else {
        host_dependencies_are_paired(paths, deps, (n - 1) as nat, d);
        let back = match hosttest::path_of(paths, deps[n - 1], 0) {
            Some(p) => seq!["--extern"@, build::crate_name(deps[n - 1]) + "="@ + p],
            None => seq![],
        };
        keys::pairs_stay(seq![], before, back, x, y);
        assert(all =~= seq![] + before + back);
    }
}

/// A unit that is built for the host is told where each of its dependencies is, under the name of that
/// dependency, and a test and a library are told the same.
pub proof fn host_builds_are_told_every_dependency(
    b: HostBuild,
    u: graph::Node,
    paths: Seq<(Seq<char>, Seq<char>)>,
    d: int,
    j: int,
)
    requires
        0 <= d < u.deps.len(),
        0 <= j < paths.len(),
        paths[j].0 == u.deps[d],
        forall|k: int| 0 <= k < j ==> (#[trigger] paths[k]).0 != u.deps[d],
    ensures
        keys::has_pair(
            hosttest::test_args_of(b, u, paths),
            "--extern"@,
            build::crate_name(u.deps[d]) + "="@ + paths[j].1,
        ),
        keys::has_pair(
            hosttest::rlib_args_of(b, u, paths),
            "--extern"@,
            build::crate_name(u.deps[d]) + "="@ + paths[j].1,
        ),
{
    let (x, y) = ("--extern"@, build::crate_name(u.deps[d]) + "="@ + paths[j].1);
    the_first_path(paths, u.deps[d], j, 0);
    host_dependencies_are_paired(paths, u.deps, u.deps.len(), d);
    let deps = hosttest::deps_args(paths, u.deps, u.deps.len());
    let own = match hosttest::path_of(paths, "kconfig"@, 0) {
        Some(p) => seq!["--extern"@, "kconfig="@ + p],
        None => seq![],
    };
    let named = hosttest::named_args(b, u, paths);
    keys::pairs_stay(seq![], deps, own + seq!["-L"@, b.out@], x, y);
    assert(named =~= seq![] + deps + (own + seq!["-L"@, b.out@]));
    let front = hosttest::common_args(b) + seq!["--test"@, "--crate-name"@, build::crate_name(u.name)];
    let back = seq![
        graph::below(u.dir, u.root),
        "-o"@,
        graph::below(b.out@, "test-"@ + build::crate_name(u.name)),
    ];
    keys::pairs_stay(front, named, back, x, y);
    assert(hosttest::test_args_of(b, u, paths) == front + named + back);
    let front2 = hosttest::common_args(b) + seq!["--crate-type"@, "rlib"@, "--crate-name"@, build::crate_name(u.name)];
    let back2 = seq![
        graph::below(u.dir, u.root),
        "-o"@,
        graph::below(b.out@, "lib"@ + build::crate_name(u.name) + ".rlib"@),
    ];
    keys::pairs_stay(front2, named, back2, x, y);
    assert(hosttest::rlib_args_of(b, u, paths) == front2 + named + back2);
}

/// The modules are built from the units that are modules, all of them, in their order.
pub proof fn every_module_is_built(units: Seq<graph::Node>, n: nat, i: int)
    requires
        n <= units.len(),
    ensures
        derived::module_places(units, n).contains(i) <==> 0 <= i < n && units[i].kind == graph::Kind::Module,
        forall|a: int|
            0 <= a < derived::module_places(units, n).len() ==> 0 <= #[trigger] derived::module_places(units, n)[a] < n,
        forall|a: int, b: int|
            0 <= a < b < derived::module_places(units, n).len() ==> #[trigger] derived::module_places(units, n)[a]
                < #[trigger] derived::module_places(units, n)[b],
    decreases n,
{
    if n > 0 {
        let all = derived::module_places(units, n);
        let before = derived::module_places(units, (n - 1) as nat);
        every_module_is_built(units, (n - 1) as nat, i);
        if units[n - 1].kind == graph::Kind::Module {
            assert(all == before.push(n - 1));
            assert(all[before.len() as int] == n - 1);
            if before.contains(i) {
                let q = before.index_of(i);
                assert(all[q] == i);
            }
        }
    }
}

/// The first byte that was not written is the one that is complained of, and none is where every byte is
/// what was written.
pub proof fn the_first_stray_byte_is_named(data: Seq<u8>, seed: u8, g: spec_fn(u8, int) -> u8, i: int)
    requires
        0 <= i <= data.len(),
    ensures
        match diskcheck::stray_from(data, seed, g, i) {
            Some(at) => i <= at < data.len() && data[at] != g(seed, at) && forall|j: int|
                i <= j < at ==> #[trigger] data[j] == g(seed, j),
            None => forall|j: int| i <= j < data.len() ==> #[trigger] data[j] == g(seed, j),
        },
    decreases data.len() - i,
{
    if i < data.len() && data[i] == g(seed, i) {
        the_first_stray_byte_is_named(data, seed, g, i + 1);
    }
}

/// What a crash workload left is counted to the last byte: file by file, by what each holds.
pub proof fn crash_files_are_counted(files: Seq<(Seq<char>, Seq<u8>)>, g: spec_fn(u8, int) -> u8, n: nat, i: int)
    requires
        0 <= i < n <= files.len(),
    ensures
        match diskcheck::workload(files, g, n) {
            Ok(total) => total >= files[i].1.len() && forall|j: int|
                0 <= j < files[i].1.len() ==> #[trigger] files[i].1[j] == g(diskcheck::CRASH_SEED, j),
            Err(_) => exists|k: int, j: int|
                0 <= k < n && 0 <= j < files[k].1.len() && #[trigger] files[k].1[j] != g(diskcheck::CRASH_SEED, j),
        },
        diskcheck::workload(files, g, n) is Ok && diskcheck::workload(files, g, (n - 1) as nat) is Ok
            ==> diskcheck::workload(files, g, n)->Ok_0 == diskcheck::workload(files, g, (n - 1) as nat)->Ok_0
            + files[n - 1].1.len(),
    decreases n,
{
    let data = files[n - 1].1;
    the_first_stray_byte_is_named(data, diskcheck::CRASH_SEED, g, 0);
    let before = diskcheck::workload(files, g, (n - 1) as nat);
    workloads_are_whole(files, g, (n - 1) as nat);
    if n > 1 {
        crash_files_are_counted(
            files,
            g,
            (n - 1) as nat,
            if i < n - 1 {
                i
            } else {
                0
            },
        );
    }
    if before is Err {
        let (k, j) = choose|k: int, j: int|
            0 <= k < n - 1 && 0 <= j < files[k].1.len() && #[trigger] files[k].1[j] != g(diskcheck::CRASH_SEED, j);
        assert(files[k].1[j] != g(diskcheck::CRASH_SEED, j));
    } else if diskcheck::stray_from(data, diskcheck::CRASH_SEED, g, 0) is Some {
        let at = diskcheck::stray_from(data, diskcheck::CRASH_SEED, g, 0)->0;
        assert(files[n - 1].1[at] != g(diskcheck::CRASH_SEED, at));
    }
}

proof fn workloads_are_whole(files: Seq<(Seq<char>, Seq<u8>)>, g: spec_fn(u8, int) -> u8, n: nat)
    requires
        n <= files.len(),
    ensures
        diskcheck::workload(files, g, n) is Ok ==> diskcheck::workload(files, g, n)->Ok_0 >= 0,
    decreases n,
{
    if n > 0 {
        workloads_are_whole(files, g, (n - 1) as nat);
    }
}

/// Every line that is not blank gives its first word, in order.
pub proof fn first_words_are_taken(lines: Seq<Seq<char>>, n: nat, k: int)
    requires
        0 <= k < n <= lines.len(),
    ensures
        text::words(lines[k], 0).len() > 0 ==> fuzz::first_words(lines, n).contains(text::words(lines[k], 0)[0]),
        fuzz::first_words(lines, n).len() <= n,
        (forall|j: int| 0 <= j < n ==> text::words(#[trigger] lines[j], 0).len() > 0) ==> fuzz::first_words(
            lines,
            n,
        ).len() == n && fuzz::first_words(lines, n)[k] == text::words(lines[k], 0)[0],
    decreases n,
{
    let all = fuzz::first_words(lines, n);
    let before = fuzz::first_words(lines, (n - 1) as nat);
    if n > 1 {
        first_words_are_taken(
            lines,
            (n - 1) as nat,
            if k < n - 1 {
                k
            } else {
                0
            },
        );
    }
    let w = text::words(lines[n - 1], 0);
    if w.len() > 0 {
        assert(all == before.push(w[0]));
        assert(all[before.len() as int] == w[0]);
        if k < n - 1 && text::words(lines[k], 0).len() > 0 {
            let q = before.index_of(text::words(lines[k], 0)[0]);
            assert(all[q] == text::words(lines[k], 0)[0]);
        }
    }
}

/// On a disk for EFI the loader stands where firmware looks for it, what it hands over to beside it, and the
/// kernel and the boot entries where the loader looks for them.
pub proof fn loaders_stand_where_firmware_looks(
    images: Seq<(String, Vec<u8>)>,
    kernel: Seq<u8>,
    entries: Seq<char>,
    i: int,
)
    requires
        0 <= i < images.len(),
    ensures
        ({
            let files = package::esp_files_of(images, kernel, entries);
            let n = images.len() as int;
            &&& files.len() == n + 2
            &&& images[i].0@ == "kinboot_efi"@ ==> files[i].path == "EFI/BOOT/BOOTX64.EFI"@
            &&& images[i].0@ == "kinboot_efi_chaintest"@ ==> files[i].path == "EFI/KINTANE/CHAIN.EFI"@
            &&& files[i].data == images[i].1@
            &&& files[n].path == "KINTANE/KERNEL.ELF"@ && files[n].data == kernel
            &&& files[n + 1].path == "KINTANE/BOOT.CFG"@ && files[n + 1].data == vstd::utf8::encode_utf8(entries)
        }),
{
    loaders_are_two();
}

proof fn loaders_are_two()
    ensures
        "kinboot_efi"@ != "kinboot_efi_chaintest"@,
{
    reveal_strlit("kinboot_efi");
    reveal_strlit("kinboot_efi_chaintest");
    assert("kinboot_efi"@.len() != "kinboot_efi_chaintest"@.len());
}

/// What a guest asks for over a connection or in a datagram comes back with the reply, and what does not
/// begin as a request has none.
pub proof fn replies_carry_what_was_asked(rest: Seq<u8>, other: Seq<u8>)
    ensures
        services::reply_to(wire::NET_TCP_REQUEST@ + rest) == Some(wire::NET_TCP_REPLY@ + rest),
        services::service_answer(wire::NET_UDP_REQUEST@ + rest) == Some(wire::NET_UDP_REPLY@ + rest),
        services::closes_first(wire::NET_TCP_REQUEST@ + wire::PEER_CLOSES@ + rest),
        services::reply_to(other) is Some <==> exists|r: Seq<u8>| other == #[trigger] (wire::NET_TCP_REQUEST@ + r),
        services::service_answer(other) is Some <==> exists|r: Seq<u8>|
            other == #[trigger] (wire::NET_UDP_REQUEST@ + r),
{
    let (p, q) = (wire::NET_TCP_REQUEST@, wire::NET_UDP_REQUEST@);
    what_follows(p, rest);
    what_follows(q, rest);
    what_follows(p, wire::PEER_CLOSES@ + rest);
    what_follows(wire::PEER_CLOSES@, rest);
    assert(p + wire::PEER_CLOSES@ + rest =~= p + (wire::PEER_CLOSES@ + rest));
    if services::reply_to(other) is Some {
        let r = services::behind(other, p)->0;
        assert(other =~= p + r);
    }
    if exists|r: Seq<u8>| other == #[trigger] (p + r) {
        let r = choose|r: Seq<u8>| other == #[trigger] (p + r);
        what_follows(p, r);
    }
    if services::service_answer(other) is Some {
        let r = services::behind(other, q)->0;
        assert(other =~= q + r);
    }
    if exists|r: Seq<u8>| other == #[trigger] (q + r) {
        let r = choose|r: Seq<u8>| other == #[trigger] (q + r);
        what_follows(q, r);
    }
}

proof fn what_follows(p: Seq<u8>, rest: Seq<u8>)
    ensures
        bytes::begins(p + rest, p),
        services::behind(p + rest, p) == Some(rest),
{
    let s = p + rest;
    assert(s.subrange(0, p.len() as int) =~= p);
    assert(s.subrange(p.len() as int, s.len() as int) =~= rest);
}

/// How a boot menu begins that waits for so many seconds, starts one entry, and does one thing where that
/// fails.
pub open spec fn menu_head(timeout: int, first: Seq<char>, failing: Seq<char>) -> Seq<char> {
    "# kinboot boot entries, written by kbuild. See docs/bootloader.md#boot-options.\n"@ + "timeout "@ + text::decimal(
        timeout,
    ) + "\ndefault "@ + first + "\non-failure "@ + failing + "\n"@
}

/// The boot menu waits as long as it is told, starts the mode that was configured, or what is handed over to
/// where that is tested, and says what to do where that fails.
pub proof fn boot_menus_start_what_is_configured(o: resolve::Outcome, chain: bootcfg::Chain)
    ensures
        ({
            let tests = bootcfg::on(o, "CHAIN_TEST"@) && !(chain is Nothing);
            let timeout = resolve::int_in(o, "BOOT_MENU_TIMEOUT"@);
            let exits = bootcfg::on(o, "QEMU_EXIT"@);
            let all = bootcfg::entries_of(o, chain);
            &&& tests && exits ==> reads(all, 0, menu_head(timeout, "chain-test"@, "reboot"@))
            &&& tests && !exits ==> reads(all, 0, menu_head(timeout, "chain-test"@, "firmware"@))
            &&& !tests && exits ==> reads(all, 0, menu_head(timeout, bootcfg::mode_of(o), "reboot"@))
            &&& !tests && !exits ==> reads(all, 0, menu_head(timeout, bootcfg::mode_of(o), "firmware"@))
        }),
{
    let c = if bootcfg::on(o, "CHAIN_TEST"@) {
        chain
    } else {
        bootcfg::Chain::Nothing
    };
    let timeout = resolve::int_in(o, "BOOT_MENU_TIMEOUT"@);
    let first = if c is Nothing {
        bootcfg::mode_of(o)
    } else {
        bootcfg::CHAIN_ENTRY@
    };
    let failing = if bootcfg::on(o, "QEMU_EXIT"@) {
        "reboot"@
    } else {
        "firmware"@
    };
    menus_begin(timeout, first, failing, resolve::str_in(o, "CMDLINE"@), c);
}

proof fn menus_begin(timeout: int, first: Seq<char>, failing: Seq<char>, cmdline: Seq<char>, c: bootcfg::Chain)
    ensures
        reads(bootcfg::rendered(timeout, first, failing, cmdline, c), 0, menu_head(timeout, first, failing)),
{
    let line = text::trimmed(cmdline);
    let head = menu_head(timeout, first, failing);
    assert(head == bootcfg::list_head(timeout, first, failing));
    let a = bootcfg::kernel_entry("normal"@, "KinTane"@, line);
    let b = bootcfg::kernel_entry("safe"@, "KinTane (safe mode)"@, line);
    let r = bootcfg::kernel_entry("recovery"@, "KinTane (recovery)"@, line);
    let e = bootcfg::chain_entry(c);
    five_from_the_front(head, a, b, r, e);
    fronts_are_read(head, a + b + r + e);
}

proof fn fronts_are_read(a: Seq<char>, b: Seq<char>)
    ensures
        reads(a + b, 0, a),
{
    assert forall|k: int| 0 <= k < a.len() implies (a + b)[0 + k] == #[trigger] a[k] by {
    }
}

proof fn five_from_the_front(a: Seq<char>, b: Seq<char>, c: Seq<char>, d: Seq<char>, e: Seq<char>)
    ensures
        a + b + c + d + e == a + (b + c + d + e),
{
    assert(a + b + c + d + e =~= a + (b + c + d + e));
}

} // verus!
