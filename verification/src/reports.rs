//! What is read out of lines that tools and guests print, what is counted and what is asked for by name, said
//! of the lines, the lists and the names themselves.

use vstd::prelude::*;
use vstd::string::*;

use crate::bootstack;
use crate::commands;
use crate::commands::Command;
use crate::configure;
use crate::crashtest;
use crate::image;
use crate::kcfg;
use crate::kcfg::expr::Tri;
use crate::kcfg::resolve;
use crate::qemu::watch;
use crate::readings;
use crate::selections;
use crate::text;

verus! {

/// A crash workload says how much it did between two fixed words, and the number reads back.
pub proof fn workloads_say_how_much_they_did(n: int)
    requires
        0 <= n <= u64::MAX,
    ensures
        crashtest::ops_in("fscrash: "@ + text::decimal(n) + " ops"@) == Some(n),
{
    let (front, back) = ("fscrash: "@, " ops"@);
    let d = text::decimal(n);
    let line = front + d + back;
    readings::decimals_read_back(n);
    readings::numbers_read_back(n as nat, 10);
    let rest = line.subrange(front.len() as int, line.len() as int);
    assert(line.subrange(0, front.len() as int) =~= front);
    assert(rest =~= d + back);
    assert(rest.subrange(rest.len() - back.len(), rest.len() as int) =~= back);
    assert(line.subrange(front.len() as int, line.len() - back.len()) =~= d);
}

/// A symbol's address is the first word of its line in a listing, in hexadecimal, and its name the third.
pub proof fn addresses_are_read_in_hexadecimal(n: nat, kind: Seq<char>, name: Seq<char>)
    requires
        n <= u64::MAX,
        kind.len() > 0,
        name.len() > 0,
        forall|i: int| 0 <= i < kind.len() ==> !text::space(#[trigger] kind[i]),
        forall|i: int| 0 <= i < name.len() ==> !text::space(#[trigger] name[i]),
    ensures
        bootstack::address_in(text::digits(n, 16) + seq![' '] + kind + seq![' '] + name, name) == Some(n as int),
{
    let d = text::digits(n, 16);
    readings::numbers_read_back(n, 16);
    assert(0 <= text::digit(d[0]) < 16);
    assert forall|i: int| 0 <= i < d.len() implies !text::space(#[trigger] d[i]) by {
        assert(0 <= text::digit(d[i]) < 16);
    }
    three_words_are_three(d, kind, name);
    let line = d + seq![' '] + kind + seq![' '] + name;
    let w = text::words(line, 0);
    assert(w[0] == d && w[2] == name);
}

proof fn three_words_are_three(a: Seq<char>, b: Seq<char>, c: Seq<char>)
    requires
        a.len() > 0,
        b.len() > 0,
        c.len() > 0,
        forall|i: int| 0 <= i < a.len() ==> !text::space(#[trigger] a[i]),
        forall|i: int| 0 <= i < b.len() ==> !text::space(#[trigger] b[i]),
        forall|i: int| 0 <= i < c.len() ==> !text::space(#[trigger] c[i]),
    ensures
        text::words(a + seq![' '] + b + seq![' '] + c, 0) == seq![a, b, c],
{
    let none = Seq::<char>::empty();
    let last = seq![' '] + c;
    let rest = seq![' '] + b + last;
    readings::words_are_split_at_blanks(none, a, rest);
    assert(none + a + rest =~= a + seq![' '] + b + seq![' '] + c);
    readings::words_are_split_at_blanks(seq![' '], b, last);
    readings::words_are_split_at_blanks(seq![' '], c, none);
    assert(seq![' '] + c + none =~= last);
    assert(text::words(none, 0).len() == 0);
    assert(seq![a] + (seq![b] + (seq![c] + text::words(none, 0))) =~= seq![a, b, c]);
}

/// A prompt is seen though the output that holds it comes in pieces: wherever it ends in the newest piece, it
/// is among what is looked at.
pub proof fn prompts_are_seen_across_pieces(
    all: Seq<u8>,
    fresh: int,
    waiting: Seq<(Seq<u8>, Seq<u8>)>,
    i: int,
    at: int,
)
    requires
        0 <= i < waiting.len(),
        0 <= fresh <= all.len(),
        0 <= at,
        at + waiting[i].0.len() <= all.len(),
        all.subrange(at, at + waiting[i].0.len()) == waiting[i].0,
        at + waiting[i].0.len() > all.len() - fresh,
    ensures
        watch::shows(watch::recent(all, fresh, waiting), waiting[i]),
{
    let p = waiting[i].0;
    crate::observations::no_prompt_is_cut(waiting, waiting.len(), i);
    let most = watch::longest(waiting, waiting.len()) as int;
    let shown = watch::recent(all, fresh, waiting);
    let from = all.len() - shown.len();
    assert(from <= at);
    assert forall|k: int| 0 <= k < p.len() implies shown[at - from + k] == #[trigger] p[k] by {
        assert(all.subrange(at, at + p.len())[k] == all[at + k]);
    }
    selections::the_first_place_is_found(shown, p, 0);
    assert(selections::reads(shown, at - from, p));
}

/// Every symbol that is on counts once, and no other does.
pub proof fn symbols_that_are_on_count_once(t: kcfg::Table, o: resolve::Outcome, n: nat)
    requires
        n < t.symbols.len(),
    ensures
        resolve::tri_in(o.names, o.vals, t.symbols[n as int].name) != Tri::N ==> commands::on_count(t, o, n + 1)
            == commands::on_count(t, o, n) + 1,
        resolve::tri_in(o.names, o.vals, t.symbols[n as int].name) == Tri::N ==> commands::on_count(t, o, n + 1)
            == commands::on_count(t, o, n),
        commands::on_count(t, o, 0) == 0,
{
}

/// Dropping the requests for one symbol keeps every other, in order, and none of those.
pub proof fn requests_for_one_symbol_are_dropped(asked: Seq<resolve::Ask>, symbol: Seq<char>, n: nat, i: int)
    requires
        0 <= i < n <= asked.len(),
    ensures
        configure::without(asked, symbol, n).contains(asked[i]) <==> asked[i].symbol != symbol,
        configure::without(asked, symbol, n).len() <= n,
    decreases n,
{
    let all = configure::without(asked, symbol, n);
    let before = configure::without(asked, symbol, (n - 1) as nat);
    dropped_are_gone(asked, symbol, n);
    if n > 1 {
        requests_for_one_symbol_are_dropped(
            asked,
            symbol,
            (n - 1) as nat,
            if i < n - 1 {
                i
            } else {
                0
            },
        );
    } else {
        assert(before.len() == 0);
    }
    if asked[n - 1].symbol != symbol {
        assert(all == before.push(asked[n - 1]));
        assert(all[before.len() as int] == asked[n - 1]);
        if i < n - 1 && asked[i].symbol != symbol {
            let q = before.index_of(asked[i]);
            assert(all[q] == asked[i]);
        }
    }
}

proof fn dropped_are_gone(asked: Seq<resolve::Ask>, symbol: Seq<char>, n: nat)
    requires
        n <= asked.len(),
    ensures
        forall|q: int|
            0 <= q < configure::without(asked, symbol, n).len() ==> (#[trigger] configure::without(
                asked,
                symbol,
                n,
            )[q]).symbol != symbol,
    decreases n,
{
    if n > 0 {
        dropped_are_gone(asked, symbol, (n - 1) as nat);
        let all = configure::without(asked, symbol, n);
        let before = configure::without(asked, symbol, (n - 1) as nat);
        assert forall|q: int| 0 <= q < all.len() implies (#[trigger] all[q]).symbol != symbol by {
            if q < before.len() {
                assert(all[q] == before[q]);
            } else {
                assert(all == before.push(asked[n - 1]));
            }
        }
    }
}

/// The larger of two numbers is the one that is no less than the other.
pub proof fn the_most_is_no_less(a: u32, b: u32)
    ensures
        crashtest::most(a, b) >= a,
        crashtest::most(a, b) >= b,
        crashtest::most(a, b) == a || crashtest::most(a, b) == b,
{
}

/// Commands are known by their names: building modules is building, and tests run in the kernel where that
/// is asked for.
pub proof fn commands_are_known_by_name(name: Seq<char>, in_kernel: bool)
    ensures
        ({
            let c = commands::named(name, in_kernel);
            &&& name == "toolchain"@ <==> c == Some(Command::Toolchain)
            &&& name == "config"@ <==> c == Some(Command::Config)
            &&& name == "build"@ || name == "modules"@ <==> c == Some(Command::Build)
            &&& name == "sdk"@ <==> c == Some(Command::Sdk)
            &&& name == "menuconfig"@ <==> c == Some(Command::Menuconfig)
            &&& name == "randconfig-build"@ <==> c == Some(Command::RandconfigBuild)
            &&& name == "size"@ <==> c == Some(Command::Size)
            &&& name == "test"@ && in_kernel <==> c == Some(Command::TestTarget)
            &&& name == "test"@ && !in_kernel <==> c == Some(Command::TestHost)
            &&& name == "fuzz"@ <==> c == Some(Command::Fuzz)
            &&& name == "run"@ <==> c == Some(Command::Run)
            &&& name == "stress"@ <==> c == Some(Command::Stress)
            &&& name == "symbolize"@ <==> c == Some(Command::Symbolize)
            &&& name == "lint"@ <==> c == Some(Command::Lint)
            &&& name == "portability"@ <==> c == Some(Command::Portability)
            &&& name == "clean"@ <==> c == Some(Command::Clean)
        }),
{
    command_names_differ();
}

proof fn command_names_differ()
    ensures
        "toolchain"@.len() == 9 && "toolchain"@[0] == 't',
        "config"@.len() == 6 && "config"@[0] == 'c',
        "build"@.len() == 5 && "build"@[0] == 'b',
        "modules"@.len() == 7,
        "sdk"@.len() == 3 && "sdk"@[0] == 's',
        "menuconfig"@.len() == 10,
        "randconfig-build"@.len() == 16,
        "size"@.len() == 4 && "size"@[0] == 's',
        "test"@.len() == 4 && "test"@[0] == 't',
        "fuzz"@.len() == 4 && "fuzz"@[0] == 'f',
        "run"@.len() == 3 && "run"@[0] == 'r',
        "stress"@.len() == 6 && "stress"@[0] == 's',
        "symbolize"@.len() == 9 && "symbolize"@[0] == 's',
        "lint"@.len() == 4 && "lint"@[0] == 'l',
        "portability"@.len() == 11,
        "clean"@.len() == 5 && "clean"@[0] == 'c',
{
    reveal_strlit("toolchain");
    reveal_strlit("config");
    reveal_strlit("build");
    reveal_strlit("modules");
    reveal_strlit("sdk");
    reveal_strlit("menuconfig");
    reveal_strlit("randconfig-build");
    reveal_strlit("size");
    reveal_strlit("test");
    reveal_strlit("fuzz");
    reveal_strlit("run");
    reveal_strlit("stress");
    reveal_strlit("symbolize");
    reveal_strlit("lint");
    reveal_strlit("portability");
    reveal_strlit("clean");
}

/// An image for a boot loader says what it is for and what it is: a program of its own, for its
/// architecture, not compressed, under its name.
pub proof fn boot_images_say_what_they_are(arch: u8, load: int, entry: int, name: Seq<char>, payload: Seq<u8>)
    ensures
        ({
            let b = image::uimage_of(arch, load, entry, name, payload);
            &&& b.len() == 64 + payload.len()
            &&& b[28] == 17
            &&& b[29] == arch
            &&& b[30] == 1
            &&& b[31] == 0
            &&& b.subrange(32, 64) == image::name_field(name)
        }),
{
    let code = crate::crc::crc_of(image::header(arch, load, entry, name, payload, 0)) as int;
    let h = image::header(arch, load, entry, name, payload, code);
    let b = image::uimage_of(arch, load, entry, name, payload);
    headers_say_what_they_are(arch, load, entry, name, payload, code);
    assert(b == h + payload);
    assert(b.subrange(32, 64) =~= h.subrange(32, 64));
}

proof fn headers_say_what_they_are(arch: u8, load: int, entry: int, name: Seq<char>, payload: Seq<u8>, code: int)
    ensures
        ({
            let h = image::header(arch, load, entry, name, payload, code);
            &&& h.len() == 64
            &&& h[28] == 17
            &&& h[29] == arch
            &&& h[30] == 1
            &&& h[31] == 0
            &&& h.subrange(32, 64) == image::name_field(name)
        }),
{
    let h = image::header(arch, load, entry, name, payload, code);
    assert(image::name_field(name).len() == 32);
    assert(h.len() == 64);
    assert(h.subrange(32, 64) =~= image::name_field(name));
}

} // verus!
