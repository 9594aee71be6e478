//! What a command line asks for, and what is said of how it went.
//!
//! The program carries each command out; which one it is, what it asks of the configuration and
//! what its outcome comes to is decided here.

use vstd::prelude::*;
use vstd::slice::slice_subrange;
use vstd::string::*;

use crate::bytes;
use crate::graph;
use crate::hosttest::Summary;
use crate::kcfg;
use crate::kcfg::expr::Tri;
use crate::kcfg::resolve;
use crate::kcfg::resolve::Resolution;
use crate::kcfg::SymbolTable;
use crate::modules;
use crate::options;
use crate::options::Opts;
use crate::qemu::watch::Outcome;
use crate::text;

verus! {

/// How the program is used.
pub const USAGE: &'static str = "kbuild — the KinTane build system\n\nUSAGE:\n    kbuild <command> [options]\n\nCOMMANDS:\n    toolchain            verify the pinned toolchain in toolchain.toml\n    config               resolve a configuration and write .config\n    menuconfig           edit a configuration interactively; saves .config and\n                         menuconfig.preset\n    build                build the kernel image\n    randconfig-build     build --count random configurations from --seed, and\n                         report each failure with the command that reproduces it\n    size                 build, then report section and per-crate sizes against\n                         the preset's SIZE_BUDGET_KIB and the size baseline\n    test [--host|--target]\n                         run tests: on the host against the mocks (default),\n                         or in-kernel under QEMU on the real architecture\n    lint                 check the in-tree rules rustc cannot express\n    portability          compile the hardware-independent units for machines\n                         without a port yet (no atomics, no 64-bit atomics, no MMU)\n    fuzz [--target T]    fuzz the parsers that read untrusted input; every target\n                         when none is named. --smoke replays the committed corpus\n    run                  build, then boot under QEMU\n    modules              build the kernel and its loadable modules, and the bundle\n                         that carries them to it\n    sdk                  build, then write the module SDK for this kernel build to\n                         build/<target>/sdk\n    stress --duration <len>\n                         build a stress image and run it for <len> of guest time\n                         (e.g. 90s, 10m, 24h), failing if its heartbeat stops\n    symbolize [log]      decode the backtrace in a guest console log against the\n                         symbol bundle (default: the last `run` or `test --target`)\n    clean                remove build outputs (the cache is kept)\n\nOPTIONS:\n    --preset <name>      start from config/presets/<name>.preset, or a preset file\n                         when <name> is a path (contains `/`)\n    --set SYM=VALUE      override one symbol (repeatable)\n    --random [--seed N]  extend the configuration randomly; any command. The same\n                         seed and preset give the same configuration everywhere\n    --allyes, --allno    extend it to everything on, or everything off, that can be\n    --count K            `randconfig-build`: how many configurations (default 20)\n    --iterations K       `fuzz`: inputs per target (default 1000)\n    --corpus DIR         `fuzz`: where seeds and failures live\n    --file PATH          `fuzz`: run one input and stop, to reproduce a failure\n    --smoke              `fuzz`: replay the committed corpus and stop\n    --compare REF|FILE   `size`: baseline to compare with (default: the committed one)\n    --save FILE          `size`: also write the report to FILE\n    --update-baseline    `size`: rewrite config/size-baseline/<preset>.size\n    --verbose, -v        show each rustc invocation\n    --timeout <secs>     QEMU timeout for `run` (default 30)\n    --only <name>        `test`: only units whose name contains <name>\n";

/// A command.
#[derive(Clone, Copy, Debug, PartialEq, Eq, Structural)]
pub enum Command {
    Toolchain,
    Config,
    Build,
    Sdk,
    Menuconfig,
    RandconfigBuild,
    Size,
    /// The in-kernel tests, under QEMU.
    TestTarget,
    /// The tests on the host, against the mocks.
    TestHost,
    Fuzz,
    Run,
    Stress,
    Symbolize,
    Lint,
    Portability,
    Clean,
}

/// The command that a name stands for.
pub open spec fn named(name: Seq<char>, in_kernel: bool) -> Option<Command> {
    if name == "toolchain"@ {
        Some(Command::Toolchain)
    } else if name == "config"@ {
        Some(Command::Config)
    } else if name == "build"@ || name == "modules"@ {
        Some(Command::Build)
    } else if name == "sdk"@ {
        Some(Command::Sdk)
    } else if name == "menuconfig"@ {
        Some(Command::Menuconfig)
    } else if name == "randconfig-build"@ {
        Some(Command::RandconfigBuild)
    } else if name == "size"@ {
        Some(Command::Size)
    } else if name == "test"@ {
        Some(
            if in_kernel {
                Command::TestTarget
            } else {
                Command::TestHost
            },
        )
    } else if name == "fuzz"@ {
        Some(Command::Fuzz)
    } else if name == "run"@ {
        Some(Command::Run)
    } else if name == "stress"@ {
        Some(Command::Stress)
    } else if name == "symbolize"@ {
        Some(Command::Symbolize)
    } else if name == "lint"@ {
        Some(Command::Lint)
    } else if name == "portability"@ {
        Some(Command::Portability)
    } else if name == "clean"@ {
        Some(Command::Clean)
    } else {
        None
    }
}

/// What a command asks of the configuration by itself, on top of what the options ask: a test image
/// links the real test provider and signals its verdict, and host tests run against the mocks.
pub open spec fn own_sets(c: Command, duration: Option<int>) -> Seq<(Seq<char>, Seq<char>)> {
    match c {
        Command::TestTarget => seq![("QEMU_EXIT"@, "y"@), ("INKERNEL_TESTS"@, "y"@)],
        Command::TestHost | Command::Fuzz => seq![("MOCK_ARCH"@, "y"@)],
        Command::Stress => seq![
            ("QEMU_EXIT"@, "y"@),
            ("STRESS_TEST"@, "y"@),
            (
                "STRESS_SECONDS"@,
                text::decimal(
                    match duration {
                        Some(n) => n,
                        None => 0,
                    },
                ),
            ),
        ],
        _ => seq![],
    }
}

/// A command with its options.
#[derive(Debug)]
pub struct Job {
    pub command: Command,
    pub opts: Opts,
}

/// What a command line asks for. `outside` is why there is no tree to work in, if there is none.
pub open spec fn job_of(args: Seq<Seq<char>>, fresh: u64, outside: Option<Seq<char>>) -> Result<
    (Command, options::Options),
    Seq<char>,
> {
    let cmd = args[0];
    match options::options_of(args.subrange(1, args.len() as int), fresh) {
        Err(e) => Err(e),
        Ok(o) => if cmd != "symbolize"@ && o.positional.len() > 0 {
            Err("unexpected argument `"@ + o.positional[0] + "`"@)
        } else if o.seed is Some && o.generate is None && cmd != "randconfig-build"@ && cmd != "fuzz"@ {
            Err("--seed goes with --random (or with `randconfig-build`)"@)
        } else {
            match (outside, named(cmd, o.in_kernel)) {
                (Some(e), _) => Err(e),
                (None, None) => Err("unknown command `"@ + cmd + "`\n\n"@ + USAGE@),
                (None, Some(c)) => if c == Command::Stress && o.duration is None {
                    Err("stress needs --duration, e.g. --duration 10m"@)
                } else {
                    Ok(
                        (
                            c,
                            options::Options {
                                sets: o.sets + own_sets(c, o.duration),
                                sdk: o.sdk || c == Command::Sdk,
                                ..o
                            },
                        ),
                    )
                },
            }
        },
    }
}

fn command_named(name: &str, in_kernel: bool) -> (r: Option<Command>)
    ensures
        r == named(name@, in_kernel),
{
    if text::same(name, "toolchain") {
        Some(Command::Toolchain)
    } else if text::same(name, "config") {
        Some(Command::Config)
    } else if text::same(name, "build") || text::same(name, "modules") {
        Some(Command::Build)
    } else if text::same(name, "sdk") {
        Some(Command::Sdk)
    } else if text::same(name, "menuconfig") {
        Some(Command::Menuconfig)
    } else if text::same(name, "randconfig-build") {
        Some(Command::RandconfigBuild)
    } else if text::same(name, "size") {
        Some(Command::Size)
    } else if text::same(name, "test") {
        if in_kernel {
            Some(Command::TestTarget)
        } else {
            Some(Command::TestHost)
        }
    } else if text::same(name, "fuzz") {
        Some(Command::Fuzz)
    } else if text::same(name, "run") {
        Some(Command::Run)
    } else if text::same(name, "stress") {
        Some(Command::Stress)
    } else if text::same(name, "symbolize") {
        Some(Command::Symbolize)
    } else if text::same(name, "lint") {
        Some(Command::Lint)
    } else if text::same(name, "portability") {
        Some(Command::Portability)
    } else if text::same(name, "clean") {
        Some(Command::Clean)
    } else {
        None
    }
}

/// Ask one more thing of the configuration.
pub fn push_set(sets: &mut Vec<(String, String)>, symbol: &str, value: &str)
    ensures
        modules::settings_of(final(sets)@) == modules::settings_of(old(sets)@).push((symbol@, value@)),
{
    let ghost before = modules::settings_of(sets@);
    sets.push((symbol.to_owned(), value.to_owned()));
    assert(modules::settings_of(sets@) =~= before.push((symbol@, value@)));
}

fn push_own_sets(sets: &mut Vec<(String, String)>, c: Command, duration: Option<u64>)
    ensures
        modules::settings_of(final(sets)@) == modules::settings_of(old(sets)@) + own_sets(
            c,
            options::opt_number(duration),
        ),
{
    let ghost before = modules::settings_of(sets@);
    match c {
        Command::TestTarget => {
            push_set(sets, "QEMU_EXIT", "y");
            push_set(sets, "INKERNEL_TESTS", "y");
        },
        Command::TestHost | Command::Fuzz => {
            push_set(sets, "MOCK_ARCH", "y");
        },
        Command::Stress => {
            let n: u64 = match duration {
                Some(n) => n,
                None => 0,
            };
            push_set(sets, "QEMU_EXIT", "y");
            push_set(sets, "STRESS_TEST", "y");
            push_set(sets, "STRESS_SECONDS", text::int_text(n as i128).as_str());
        },
        _ => {},
    }
    assert(modules::settings_of(sets@) =~= before + own_sets(c, options::opt_number(duration)));
}

/// What a command line asks for. `fresh` is the seed of a random configuration without one, and
/// `outside` says why there is no tree to work in, if there is none.
pub fn dispatch(args: &[String], fresh: u64, outside: &Option<String>) -> (r: Result<Job, String>)
    requires
        args@.len() > 0,
    ensures
        match r {
            Ok(j) => job_of(text::views(args@), fresh, text::opt(*outside)) == Ok::<
                (Command, options::Options),
                Seq<char>,
            >((j.command, j.opts@)),
            Err(e) => job_of(text::views(args@), fresh, text::opt(*outside)) == Err::<
                (Command, options::Options),
                Seq<char>,
            >(e@),
        },
{
    let cmd = args[0].as_str();
    let rest = slice_subrange(args, 1, args.len());
    assert(text::views(rest@) =~= text::views(args@).subrange(1, args@.len() as int));
    let mut opts = match options::parse_opts(rest, fresh) {
        Ok(o) => o,
        Err(e) => return Err(e),
    };
    let ghost o = opts@;
    if !text::same(cmd, "symbolize") && opts.positional.len() > 0 {
        return Err(text::three("unexpected argument `", opts.positional[0].as_str(), "`"));
    }
    if opts.seed.is_some() && opts.generate.is_none() && !text::same(cmd, "randconfig-build") && !text::same(
        cmd,
        "fuzz",
    ) {
        return Err("--seed goes with --random (or with `randconfig-build`)".to_owned());
    }
    if let Some(e) = outside {
        return Err(e.as_str().to_owned());
    }
    let command = match command_named(cmd, opts.in_kernel) {
        Some(c) => c,
        None => {
            let mut e = text::three("unknown command `", cmd, "`\n\n");
            e.append(USAGE);
            return Err(e);
        },
    };
    if command == Command::Stress && opts.duration.is_none() {
        return Err("stress needs --duration, e.g. --duration 10m".to_owned());
    }
    let duration: Option<u64> = opts.duration;
    push_own_sets(&mut opts.sets, command, duration);
    if command == Command::Sdk {
        opts.sdk = true;
    }
    assert(opts@ == (options::Options {
        sets: o.sets + own_sets(command, o.duration),
        sdk: o.sdk || command == Command::Sdk,
        ..o
    }));
    Ok(Job { command, opts })
}

/// What a guest was booted for.
#[derive(Clone, Copy, Debug, PartialEq, Eq, Structural)]
pub enum Trial {
    Tests,
    Run,
    Stress,
}

/// What is said of a guest that passed.
pub open spec fn passed_line(t: Trial, code: int) -> Seq<char> {
    (match t {
        Trial::Tests => "\n\u{1b}[32min-kernel tests passed\u{1b}[0m (qemu exit "@,
        Trial::Run => "\u{1b}[32mguest signalled success\u{1b}[0m (qemu exit "@,
        Trial::Stress => "\n\u{1b}[32mstress passed\u{1b}[0m (qemu exit "@,
    }) + text::decimal(code) + ")"@
}

/// What is said of a guest that exited otherwise.
pub open spec fn failed_line(t: Trial, code: int, wanted: int, log: Seq<char>) -> Seq<char> {
    match t {
        Trial::Tests => "in-kernel tests failed: guest exited "@ + text::decimal(code) + ", expected "@ + text::decimal(
            wanted,
        ) + "\n  the failing checks are in the console output above"@,
        Trial::Run => "guest exited with code "@ + text::decimal(code) + ", expected "@ + text::decimal(wanted)
            + " for success\n  exception trace: "@ + log,
        Trial::Stress => "stress failed: guest exited "@ + text::decimal(code) + ", expected "@ + text::decimal(wanted)
            + "\n  the failed audit is in the console output above"@,
    }
}

fn passed_text(t: Trial, code: i32) -> (r: String)
    ensures
        r@ == passed_line(t, code as int),
{
    text::three(
        match t {
            Trial::Tests => "\n\u{1b}[32min-kernel tests passed\u{1b}[0m (qemu exit ",
            Trial::Run => "\u{1b}[32mguest signalled success\u{1b}[0m (qemu exit ",
            Trial::Stress => "\n\u{1b}[32mstress passed\u{1b}[0m (qemu exit ",
        },
        text::int_text(code as i128).as_str(),
        ")",
    )
}

fn failed_text(t: Trial, code: i32, wanted: i32, log: &str) -> (r: String)
    ensures
        r@ == failed_line(t, code as int, wanted as int, log@),
{
    let mut e = text::three(
        match t {
            Trial::Tests => "in-kernel tests failed: guest exited ",
            Trial::Run => "guest exited with code ",
            Trial::Stress => "stress failed: guest exited ",
        },
        text::int_text(code as i128).as_str(),
        ", expected ",
    );
    e.append(text::int_text(wanted as i128).as_str());
    match t {
        Trial::Tests => e.append("\n  the failing checks are in the console output above"),
        Trial::Run => {
            e.append(" for success\n  exception trace: ");
            e.append(log);
        },
        Trial::Stress => e.append("\n  the failed audit is in the console output above"),
    }
    e
}

/// The verdict on a guest that was booted: its exit status alone decides.
pub fn verdict(t: Trial, outcome: &Outcome, wanted: i32, log: &str) -> (r: Result<String, String>)
    ensures
        match (r, outcome.code) {
            (Ok(line), Some(c)) => outcome.passed && line@ == passed_line(t, c as int),
            (Err(e), Some(c)) => !outcome.passed && e@ == failed_line(t, c as int, wanted as int, log@),
            (Err(e), None) => e@ == "QEMU was terminated by a signal"@,
            (Ok(_), None) => false,
        },
{
    match outcome.code {
        Some(c) => {
            if outcome.passed {
                Ok(passed_text(t, c))
            } else {
                Err(failed_text(t, c, wanted, log))
            }
        },
        None => Err("QEMU was terminated by a signal".to_owned()),
    }
}

/// Whether a guest ended by itself; if not, why it was killed.
pub fn check_ended(outcome: &Outcome, timeout: u64) -> (r: Result<(), String>)
    ensures
        match (r, outcome.hung) {
            (Ok(_), None) => !outcome.timed_out,
            (Ok(_), Some(_)) => false,
            (Err(e), Some(why)) => e@ == "killed by the heartbeat watchdog: "@ + why@,
            (Err(e), None) => outcome.timed_out && e@ == "timed out after "@ + text::decimal(timeout as int)
                + "s with no exit signal from the guest"@,
        },
{
    if let Some(why) = &outcome.hung {
        let mut e = "killed by the heartbeat watchdog: ".to_owned();
        e.append(why.as_str());
        return Err(e);
    }
    if outcome.timed_out {
        return Err(
            text::three(
                "timed out after ",
                text::int_text(timeout as i128).as_str(),
                "s with no exit signal from the guest",
            ),
        );
    }
    Ok(())
}

/// What is said of the host's tests.
pub fn host_line(s: &Summary) -> (r: String)
    ensures
        r@ == "\n"@ + text::decimal(s.units as int) + " unit(s): \u{1b}[32m"@ + text::decimal(s.passed as int)
            + " passed\u{1b}[0m, "@ + text::decimal(s.failed as int) + " failed"@,
{
    let mut r = text::three("\n", text::int_text(s.units as i128).as_str(), " unit(s): \u{1b}[32m");
    r.append(text::int_text(s.passed as i128).as_str());
    r.append(" passed\u{1b}[0m, ");
    r.append(text::int_text(s.failed as i128).as_str());
    r.append(" failed");
    r
}

fn counted(n: usize, what: &str) -> (r: Result<(), String>)
    ensures
        match r {
            Ok(_) => n == 0,
            Err(e) => n > 0 && e@ == text::decimal(n as int) + what@,
        },
{
    if n == 0 {
        return Ok(());
    }
    let mut e = text::int_text(n as i128);
    e.append(what);
    Err(e)
}

/// The verdict on the host's tests.
pub fn host_verdict(s: &Summary) -> (r: Result<(), String>)
    ensures
        match r {
            Ok(_) => s.failed == 0,
            Err(e) => s.failed > 0 && e@ == text::decimal(s.failed as int) + " unit(s) had failing tests"@,
        },
{
    counted(s.failed, " unit(s) had failing tests")
}

/// The verdict of the lint, on as many violations as it found.
pub fn lint_verdict(violations: usize) -> (r: Result<(), String>)
    ensures
        match r {
            Ok(_) => violations == 0,
            Err(e) => violations > 0 && e@ == text::decimal(violations as int) + " cfg-in-body violation(s)"@,
        },
{
    counted(violations, " cfg-in-body violation(s)")
}

/// The verdict of the portability check, on as many builds as failed.
pub fn portability_verdict(failed: usize) -> (r: Result<(), String>)
    ensures
        match r {
            Ok(_) => failed == 0,
            Err(e) => failed > 0 && e@ == text::decimal(failed as int) + " build(s) failed the portability check"@,
        },
{
    counted(failed, " build(s) failed the portability check")
}

/// The log that is decoded: the one that was named, or the last boot's.
pub fn symbolize_log(positional: &Vec<String>, dir: &str) -> (r: Result<String, String>)
    ensures
        match r {
            Ok(p) => positional@.len() <= 1 && p@ == if positional@.len() == 0 {
                graph::below(dir@, "console.log"@)
            } else {
                positional@[0]@
            },
            Err(e) => positional@.len() > 1 && e@ == "symbolize takes one log file"@,
        },
{
    if positional.len() == 0 {
        Ok(graph::join_path(dir, "console.log"))
    } else if positional.len() == 1 {
        Ok(positional[0].as_str().to_owned())
    } else {
        Err("symbolize takes one log file".to_owned())
    }
}

/// The verdict on a log in which `n` backtrace lines were decoded.
pub fn symbolize_verdict(n: usize, log: &str) -> (r: Result<(), String>)
    ensures
        match r {
            Ok(_) => n > 0,
            Err(e) => n == 0 && e@ == "no backtrace lines (`bt ...`) in "@ + log@,
        },
{
    if n > 0 {
        return Ok(());
    }
    let mut e = "no backtrace lines (`bt ...`) in ".to_owned();
    e.append(log);
    Err(e)
}

/// The one symbol bundle that a build directory holds, among the bundles found in it.
pub fn symbol_bundle(found: &Vec<String>, out: &str) -> (r: Result<String, String>)
    ensures
        match r {
            Ok(p) => found@.len() == 1 && p@ == found@[0]@,
            Err(e) => found@.len() != 1 && e@ == if found@.len() == 0 {
                "no symbol bundle (*.debug) in "@ + out@
            } else {
                "more than one symbol bundle in "@ + out@
            },
        },
{
    if found.len() == 1 {
        return Ok(found[0].as_str().to_owned());
    }
    let mut e = if found.len() == 0 {
        "no symbol bundle (*.debug) in ".to_owned()
    } else {
        "more than one symbol bundle in ".to_owned()
    };
    e.append(out);
    Err(e)
}

/// What each stub of a compiler intrinsic that must not be reached carries.
pub const TRAP_MARKER: &'static str = "KBUILD-UNREACHABLE-INTRINSIC";

/// Refuse a UEFI image that still contains a trap stub. The linker discards those that only dead
/// code names; one that survives would trap the first time the loader ran that path.
pub fn reject_trap_stubs(path: &str, image: &[u8]) -> (r: Result<(), String>)
    ensures
        match r {
            Ok(_) => bytes::find(image@, vstd::utf8::encode_utf8(TRAP_MARKER@), 0) is None,
            Err(e) => bytes::find(image@, vstd::utf8::encode_utf8(TRAP_MARKER@), 0) is Some && e@ == path@
                + " calls a compiler intrinsic that lib/builtins only stubs out\n  the stub traps; implement the intrinsic in lib/builtins, or stop using what needs it (see lib/builtins/src/uefi_link.rs)"@,
        },
{
    if bytes::find_bytes(image, TRAP_MARKER.as_bytes(), 0).is_none() {
        return Ok(());
    }
    let mut e = path.to_owned();
    e.append(
        " calls a compiler intrinsic that lib/builtins only stubs out\n  the stub traps; implement the intrinsic in lib/builtins, or stop using what needs it (see lib/builtins/src/uefi_link.rs)",
    );
    Err(e)
}

/// How many of the first `n` symbols of a table are on.
pub open spec fn on_count(t: kcfg::Table, o: resolve::Outcome, n: nat) -> nat
    decreases n,
{
    if n == 0 {
        0
    } else {
        on_count(t, o, (n - 1) as nat) + if resolve::tri_in(o.names, o.vals, t.symbols[n - 1].name) != Tri::N {
            1nat
        } else {
            0
        }
    }
}

/// What is said of a configuration that was resolved.
pub fn config_line(table: &SymbolTable, res: &Resolution) -> (r: String)
    ensures
        r@ == "configuration resolved: "@ + text::decimal(table@.symbols.len() as int) + " symbols, "@ + text::decimal(
            on_count(table@, res@, table@.symbols.len()) as int,
        ) + " enabled"@,
{
    let mut n: usize = 0;
    let mut i: usize = 0;
    while i < table.symbols.len()
        invariant
            n <= i <= table.symbols@.len(),
            n == on_count(table@, res@, i as nat),
        decreases table.symbols@.len() - i,
    {
        assert(table@.symbols[i as int] == table.symbols@[i as int]@);
        if res.is_on(table.symbols[i].name.as_str()) {
            n += 1;
        }
        i += 1;
    }
    let mut r = text::three(
        "configuration resolved: ",
        text::int_text(table.symbols.len() as i128).as_str(),
        " symbols, ",
    );
    r.append(text::int_text(n as i128).as_str());
    r.append(" enabled");
    r
}

/// Whether `clean` keeps an entry of the build directory.
pub fn is_kept(name: &str) -> (r: bool)
    ensures
        r == (name@ == "cache"@),
{
    text::same(name, "cache")
}

/// A command that takes no file refuses one, whatever else it is given.
pub proof fn stray_arguments_are_refused(args: Seq<Seq<char>>, fresh: u64, outside: Option<Seq<char>>)
    requires
        args.len() > 0,
        args[0] != "symbolize"@,
        options::options_of(args.subrange(1, args.len() as int), fresh) is Ok,
        options::options_of(args.subrange(1, args.len() as int), fresh)->Ok_0.positional.len() > 0,
    ensures
        job_of(args, fresh, outside) is Err,
{
}

/// What a command asks by itself comes after what the options ask, so that it wins.
pub proof fn own_sets_come_last(args: Seq<Seq<char>>, fresh: u64, outside: Option<Seq<char>>)
    requires
        args.len() > 0,
        job_of(args, fresh, outside) is Ok,
    ensures
        ({
            let (c, o) = job_of(args, fresh, outside)->Ok_0;
            let given = options::options_of(args.subrange(1, args.len() as int), fresh)->Ok_0;
            o.sets == given.sets + own_sets(c, given.duration)
        }),
{
}

} // verus!
