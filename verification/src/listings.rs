//! What is written out or handed on item by item, said of the items themselves.

use vstd::prelude::*;
use vstd::string::*;

use crate::build::steps;
use crate::graph;
use crate::image;
use crate::kcfg;
use crate::kcfg::resolve;
use crate::lint;
use crate::menuconfig;
use crate::netpeer;
use crate::netpeer::Net;
use crate::readings;
use crate::sdk;
use crate::sdk::Places;
use crate::text;

verus! {

/// A frame goes to the protocol that its header names, and one that is too short or names none is not
/// answered. Whoever sent it is the guest.
pub proof fn frames_go_to_their_protocol(n: Net, f: Seq<u8>)
    ensures
        ({
            let heard = Net { guest_mac: Some(f.subrange(6, 12)), ..n };
            let replies = netpeer::answered(n, f).1;
            let arp = f.len() >= 14 && f[12] == 8 && f[13] == 6;
            let packet = f.len() >= 24 && f[12] == 8 && f[13] == 0;
            &&& arp ==> replies == netpeer::hear_arp(heard, f).1
            &&& packet && f[23] == 1 ==> replies == match netpeer::echo_answer(heard.guest_mac, f) {
                Some(e) => seq![e],
                None => seq![],
            }
            &&& packet && f[23] == 17 ==> netpeer::answered(n, f) == netpeer::hear_datagram(heard, f)
            &&& packet && f[23] == 6 ==> netpeer::answered(n, f) == netpeer::hear_segment(heard, f)
            &&& !arp && !(packet && (f[23] == 1 || f[23] == 17 || f[23] == 6)) ==> replies.len() == 0
            &&& 12 <= f.len() < 14 ==> netpeer::answered(n, f).0 == heard
            &&& f.len() < 12 ==> netpeer::answered(n, f).0 == n
        }),
{
    if f.len() >= 14 {
        let kind = f.subrange(12, 14);
        assert(kind[0] == f[12] && kind[1] == f[13]);
        let (arp, ip) = (netpeer::ETHERTYPE_ARP@, netpeer::ETHERTYPE_IPV4@);
        assert(arp[0] == 8 && arp[1] == 6 && ip[0] == 8 && ip[1] == 0);
        if f[12] == 8 && f[13] == 6 {
            assert(kind =~= arp);
        }
        if f[12] == 8 && f[13] == 0 {
            assert(kind =~= ip);
        }
    }
}

/// The image is the last unit that was built as one.
pub proof fn the_last_image_is_taken(units: Seq<graph::Node>, built: Seq<int>, n: nat, k: int)
    requires
        0 <= k < n <= built.len(),
        units[built[k]].kind == graph::Kind::Bin,
        forall|j: int| k < j < n ==> units[#[trigger] built[j]].kind != graph::Kind::Bin,
    ensures
        steps::image_unit(units, built, n) == Some(built[k]),
    decreases n,
{
    if k < n - 1 {
        assert(units[built[n - 1]].kind != graph::Kind::Bin);
        the_last_image_is_taken(units, built, (n - 1) as nat, k);
    }
}

/// Images of their own are the units that name a target.
pub proof fn units_with_targets_are_images(units: Seq<graph::Node>, n: nat, i: int)
    requires
        n <= units.len(),
    ensures
        steps::own_images(units, n).contains(i) <==> 0 <= i < n && units[i].target is Some,
        forall|a: int|
            0 <= a < steps::own_images(units, n).len() ==> 0 <= #[trigger] steps::own_images(units, n)[a] < n,
        forall|a: int, b: int|
            0 <= a < b < steps::own_images(units, n).len() ==> #[trigger] steps::own_images(units, n)[a]
                < #[trigger] steps::own_images(units, n)[b],
    decreases n,
{
    if n > 0 {
        let all = steps::own_images(units, n);
        let before = steps::own_images(units, (n - 1) as nat);
        units_with_targets_are_images(units, (n - 1) as nat, i);
        if units[n - 1].target is Some {
            assert(all == before.push(n - 1));
            assert(all[before.len() as int] == n - 1);
            if before.contains(i) {
                let q = before.index_of(i);
                assert(all[q] == i);
            }
        }
    }
}

/// What is built later is every unit but the three that come first.
pub proof fn three_units_come_first(units: Seq<graph::Node>, n: nat, i: int)
    requires
        0 <= i < n <= units.len(),
    ensures
        ({
            let name = units[i].name;
            let first = name == "core"@ || name == "compiler_builtins"@ || name == "kconfig"@;
            steps::later(units, n).contains(units[i]) <==> !first
        }),
    decreases n,
{
    let all = steps::later(units, n);
    let before = steps::later(units, (n - 1) as nat);
    later_do_not_come_first(units, n);
    if !steps::comes_first(units[i].name) {
        if i == n - 1 {
            assert(all[before.len() as int] == units[i]);
        } else {
            three_units_come_first(units, (n - 1) as nat, i);
            let q = before.index_of(units[i]);
            assert(all[q] == units[i]);
        }
    }
}

proof fn later_do_not_come_first(units: Seq<graph::Node>, n: nat)
    requires
        n <= units.len(),
    ensures
        forall|q: int|
            0 <= q < steps::later(units, n).len() ==> !steps::comes_first((#[trigger] steps::later(units, n)[q]).name),
    decreases n,
{
    if n > 0 {
        later_do_not_come_first(units, (n - 1) as nat);
    }
}

/// What is found in a tree is what is found in each of its files.
pub proof fn every_file_is_looked_at(files: Seq<lint::Doc>, n: nat, i: int, q: int)
    requires
        0 <= i < n <= files.len(),
        ({
            let lines = text::lines(files[i].text, 0);
            0 <= q < lint::violations_of(files[i].path, lines, lines.len()).len()
        }),
    ensures
        ({
            let lines = text::lines(files[i].text, 0);
            lint::tree_findings(files, n).contains(lint::violations_of(files[i].path, lines, lines.len())[q])
        }),
    decreases n,
{
    let all = lint::tree_findings(files, n);
    let before = lint::tree_findings(files, (n - 1) as nat);
    let own = lint::file_findings(files[n - 1]);
    assert(all == before + own);
    if i == n - 1 {
        assert(all[before.len() + q] == own[q]);
    } else {
        every_file_is_looked_at(files, (n - 1) as nat, i, q);
        let lines = text::lines(files[i].text, 0);
        let x = lint::violations_of(files[i].path, lines, lines.len())[q];
        let p = before.index_of(x);
        assert(all[p] == x);
    }
}

/// The family of a target is its name up to the first hyphen, and an image for a boot loader names it by its
/// number.
pub proof fn families_have_their_numbers(family: Seq<char>, rest: Seq<char>)
    requires
        forall|i: int| 0 <= i < family.len() ==> #[trigger] family[i] != '-',
    ensures
        image::family_of(family + seq!['-'] + rest) == family,
        image::family_of(family) == family,
        family == "armv7m"@ <==> image::arch_of(family) == Some(2u8),
        family == "i686"@ <==> image::arch_of(family) == Some(3u8),
        family == "aarch64"@ <==> image::arch_of(family) == Some(22u8),
        family == "x86_64"@ <==> image::arch_of(family) == Some(24u8),
        family == "riscv32"@ || family == "riscv32i"@ <==> image::arch_of(family) == Some(26u8),
{
    let s = family + seq!['-'] + rest;
    let n = family.len() as int;
    assert forall|j: int| 0 <= j < n implies #[trigger] s[j] != '-' by {
        assert(s[j] == family[j]);
    }
    readings::separators_are_next(s, '-', n, 0);
    readings::separators_are_next(family, '-', n, 0);
    assert(s.subrange(0, n) =~= family);
    assert(family.subrange(0, n) =~= family);
    families_differ();
}

proof fn families_differ()
    ensures
        "armv7m"@ != "i686"@,
        "armv7m"@ != "aarch64"@,
        "armv7m"@ != "x86_64"@,
        "armv7m"@ != "riscv32"@,
        "armv7m"@ != "riscv32i"@,
        "i686"@ != "aarch64"@,
        "i686"@ != "x86_64"@,
        "i686"@ != "riscv32"@,
        "i686"@ != "riscv32i"@,
        "aarch64"@ != "x86_64"@,
        "aarch64"@ != "riscv32"@,
        "aarch64"@ != "riscv32i"@,
        "x86_64"@ != "riscv32"@,
        "x86_64"@ != "riscv32i"@,
{
    reveal_strlit("armv7m");
    reveal_strlit("i686");
    reveal_strlit("aarch64");
    reveal_strlit("x86_64");
    reveal_strlit("riscv32");
    reveal_strlit("riscv32i");
    assert("armv7m"@[0] == 'a' && "aarch64"@[1] == 'a' && "armv7m"@[1] == 'r');
    assert("i686"@[0] == 'i' && "aarch64"@[0] == 'a' && "x86_64"@[0] == 'x');
    assert("riscv32"@[0] == 'r' && "riscv32i"@[0] == 'r');
}

/// The formats that an image can be asked for in are known by their names.
pub proof fn formats_are_known_by_name(name: Seq<char>)
    ensures
        name == "elf"@ ==> image::chosen(Some(name)) == Ok::<image::Format, Seq<char>>(image::Format::Elf),
        name == "bin"@ ==> image::chosen(Some(name)) == Ok::<image::Format, Seq<char>>(image::Format::Bin),
        name == "uki"@ ==> image::chosen(Some(name)) == Ok::<image::Format, Seq<char>>(image::Format::Uki),
        name == "uimage"@ ==> image::chosen(Some(name)) == Ok::<image::Format, Seq<char>>(image::Format::Uimage),
        name != "elf"@ && name != "bin"@ && name != "uki"@ && name != "uimage"@ ==> image::chosen(Some(name)) is Err,
        image::chosen(None) is Err,
{
    reveal_strlit("elf");
    reveal_strlit("bin");
    reveal_strlit("uki");
    reveal_strlit("uimage");
    assert("elf"@[0] == 'e' && "bin"@[0] == 'b' && "uki"@[0] == 'u' && "uki"@[1] == 'k' && "uimage"@[1] == 'i');
    assert("uimage"@[0] == 'u');
}

/// The script that builds against the kit passes every argument on, one to a line and in order, but gives
/// the crate the name that it was called with.
pub proof fn scripts_pass_every_argument(args: Seq<Seq<char>>, p: Places, m: int, i: int)
    requires
        0 <= i <= m <= args.len(),
        forall|j: int| i <= j < m ==> #[trigger] args[j] != "--crate-name"@,
        m < args.len() ==> m + 1 < args.len() && args[m] == "--crate-name"@,
    ensures
        sdk::lines_from(args, p, i) == Seq::new((m - i) as nat, |j: int| "  "@ + sdk::relocated(args[i + j], p)) + if m
            < args.len() {
            seq!["  --crate-name \"$CRATE\""@] + sdk::lines_from(args, p, m + 2)
        } else {
            seq![]
        },
    decreases m - i,
{
    let all = Seq::new((m - i) as nat, |j: int| "  "@ + sdk::relocated(args[i + j], p));
    let back = if m < args.len() {
        seq!["  --crate-name \"$CRATE\""@] + sdk::lines_from(args, p, m + 2)
    } else {
        seq![]
    };
    if i < m {
        assert(args[i] != "--crate-name"@);
        scripts_pass_every_argument(args, p, m, i + 1);
        let rest = Seq::new((m - i - 1) as nat, |j: int| "  "@ + sdk::relocated(args[i + 1 + j], p));
        assert(seq!["  "@ + sdk::relocated(args[i], p)] + (rest + back) =~= all + back);
    } else {
        assert(all + back =~= back);
    }
}

/// A preset holds one line for each request that lasts, in order: the symbol, an equals sign and the value,
/// which is quoted where the symbol is a text.
pub proof fn presets_hold_every_request(t: kcfg::Table, asked: Seq<resolve::Ask>, n: nat, rest: Seq<char>)
    requires
        n <= asked.len(),
        forall|k: int, c: int|
            0 <= k < n && 0 <= c < preset_words(t, asked[k]).len() ==> #[trigger] preset_words(t, asked[k])[c] != '\n'
                && preset_words(t, asked[k])[c] != '\r',
    ensures
        text::lines(menuconfig::preset_lines(t, asked, n) + rest, 0) == Seq::new(
            n,
            |k: int| preset_words(t, asked[k]),
        ) + text::lines(rest, 0),
    decreases n,
{
    let all = Seq::new(n, |k: int| preset_words(t, asked[k]));
    if n == 0 {
        assert(menuconfig::preset_lines(t, asked, n) + rest =~= rest);
        assert(all + text::lines(rest, 0) =~= text::lines(rest, 0));
    } else {
        let a = asked[n - 1];
        let l = preset_words(t, a);
        let more = l + seq!['\n'] + rest;
        presets_hold_every_request(t, asked, (n - 1) as nat, more);
        let before = menuconfig::preset_lines(t, asked, (n - 1) as nat);
        lines_are_words(t, a);
        assert(menuconfig::preset_lines(t, asked, n) == before + (l + seq!['\n']));
        assert(before + (l + seq!['\n']) + rest =~= before + more);
        assert forall|c: int| 0 <= c < l.len() implies #[trigger] l[c] != '\n' by {
            assert(preset_words(t, asked[n - 1])[c] != '\n');
        }
        if l.len() > 0 {
            assert(preset_words(t, asked[n - 1])[l.len() - 1] != '\n');
        }
        readings::lines_are_split_at_their_ends(l, rest);
        let front = Seq::new((n - 1) as nat, |k: int| preset_words(t, asked[k]));
        assert(front + (seq![l] + text::lines(rest, 0)) =~= all + text::lines(rest, 0));
    }
}

/// A request as a line of a preset.
pub open spec fn preset_words(t: kcfg::Table, a: resolve::Ask) -> Seq<char> {
    if exists|i: int| is_text(t, a.symbol, i) {
        a.symbol + seq!['=', '"'] + a.text + seq!['"']
    } else {
        a.symbol + seq!['='] + a.text
    }
}

/// Whether the first symbol of that name is the one in this place, and a text.
pub open spec fn is_text(t: kcfg::Table, name: Seq<char>, i: int) -> bool {
    &&& 0 <= i < t.symbols.len()
    &&& t.symbols[i].name == name
    &&& t.symbols[i].kind is Str
    &&& forall|j: int| 0 <= j < i ==> (#[trigger] t.symbols[j]).name != name
}

proof fn lines_are_words(t: kcfg::Table, a: resolve::Ask)
    ensures
        menuconfig::preset_line(t, a) == preset_words(t, a) + seq!['\n'],
{
    reveal_strlit("=\"");
    reveal_strlit("\"\n");
    reveal_strlit("=");
    reveal_strlit("\n");
    symbols_stand(t, a.symbol, 0);
    let at = kcfg::sym_from(t.symbols, a.symbol, 0);
    if at is Some && t.symbols[at->0].kind is Str {
        assert(is_text(t, a.symbol, at->0));
        assert(menuconfig::preset_line(t, a) =~= preset_words(t, a) + seq!['\n']);
    } else {
        if exists|i: int| is_text(t, a.symbol, i) {
            let i = choose|i: int| is_text(t, a.symbol, i);
            assert(at is Some);
            assert(t.symbols[at->0].name == a.symbol);
        }
        assert(menuconfig::preset_line(t, a) =~= preset_words(t, a) + seq!['\n']);
    }
}

proof fn symbols_stand(t: kcfg::Table, name: Seq<char>, i: int)
    requires
        0 <= i,
    ensures
        match kcfg::sym_from(t.symbols, name, i) {
            Some(at) => i <= at < t.symbols.len() && t.symbols[at].name == name && forall|j: int|
                i <= j < at ==> (#[trigger] t.symbols[j]).name != name,
            None => forall|j: int| i <= j < t.symbols.len() ==> (#[trigger] t.symbols[j]).name != name,
        },
    decreases t.symbols.len() - i,
{
    if i < t.symbols.len() && t.symbols[i].name != name {
        symbols_stand(t, name, i + 1);
    }
}

} // verus!
