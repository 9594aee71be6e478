//! Command lines, verdicts and configurations.

use kbuild::commands::{
    check_ended, dispatch, host_line, host_verdict, is_kept, lint_verdict, portability_verdict, reject_trap_stubs,
    symbol_bundle, symbolize_log, symbolize_verdict, verdict, Command, Trial, USAGE,
};
use kbuild::configure::{base_requests, no_preset, preset_path, resolve_config, resolve_overridden, Preset};
use kbuild::hosttest::Summary;
use kbuild::kcfg::parse::{parse_tree, sources, SourceFile};
use kbuild::kcfg::random::{generate, Mode};
use kbuild::kcfg::SymbolTable;
use kbuild::qemu::watch::Outcome;

fn args(list: &[&str]) -> Vec<String> {
    list.iter().map(|s| s.to_string()).collect()
}

fn sets(list: &[(&str, &str)]) -> Vec<(String, String)> {
    list.iter().map(|(k, v)| (k.to_string(), v.to_string())).collect()
}

fn job(list: &[&str]) -> Result<(Command, Vec<(String, String)>, bool), String> {
    dispatch(&args(list), 7, &None).map(|j| (j.command, j.opts.sets, j.opts.sdk))
}

#[test]
fn every_command_has_its_name() {
    for (name, command) in [
        ("toolchain", Command::Toolchain),
        ("config", Command::Config),
        ("build", Command::Build),
        ("modules", Command::Build),
        ("sdk", Command::Sdk),
        ("menuconfig", Command::Menuconfig),
        ("randconfig-build", Command::RandconfigBuild),
        ("size", Command::Size),
        ("test", Command::TestHost),
        ("fuzz", Command::Fuzz),
        ("run", Command::Run),
        ("symbolize", Command::Symbolize),
        ("lint", Command::Lint),
        ("portability", Command::Portability),
        ("clean", Command::Clean),
    ] {
        assert_eq!(job(&[name]).unwrap().0, command, "{name}");
    }
    assert_eq!(job(&["test", "--target"]).unwrap().0, Command::TestTarget);
    let e = job(&["frobnicate"]).unwrap_err();
    assert!(e.starts_with("unknown command `frobnicate`\n\n"), "{e}");
    assert!(e.ends_with(USAGE), "the usage follows");
}

#[test]
fn a_command_asks_for_what_it_needs_after_what_the_options_ask() {
    let (_, s, _) = job(&["test", "--target", "--set", "QEMU_EXIT=n"]).unwrap();
    assert_eq!(s, sets(&[("QEMU_EXIT", "n"), ("QEMU_EXIT", "y"), ("INKERNEL_TESTS", "y")]));
    assert_eq!(job(&["fuzz"]).unwrap().1, sets(&[("MOCK_ARCH", "y")]));
    let (c, s, _) = job(&["stress", "--duration", "10m"]).unwrap();
    assert_eq!(c, Command::Stress);
    assert_eq!(s, sets(&[("QEMU_EXIT", "y"), ("STRESS_TEST", "y"), ("STRESS_SECONDS", "600")]));
    assert!(job(&["sdk"]).unwrap().2);
    assert!(!job(&["build"]).unwrap().2);
}

#[test]
fn misplaced_arguments_are_refused() {
    assert_eq!(job(&["build", "x"]).unwrap_err(), "unexpected argument `x`");
    assert!(job(&["symbolize", "x"]).is_ok());
    let e = job(&["build", "--seed", "3"]).unwrap_err();
    assert_eq!(e, "--seed goes with --random (or with `randconfig-build`)");
    assert!(job(&["fuzz", "--seed", "3"]).is_ok());
    assert_eq!(job(&["stress"]).unwrap_err(), "stress needs --duration, e.g. --duration 10m");
    assert_eq!(job(&["build", "--what"]).unwrap_err(), "unknown option `--what`");
    let e = dispatch(&args(&["frobnicate"]), 0, &Some("not inside a tree".to_string())).err().unwrap();
    assert_eq!(e, "not inside a tree", "a tree comes before a command");
}

fn outcome(code: Option<i32>, passed: bool) -> Outcome {
    Outcome { code, passed, timed_out: false, console: Vec::new(), hung: None }
}

#[test]
fn the_exit_status_is_the_verdict() {
    assert_eq!(
        verdict(Trial::Run, &outcome(Some(33), true), 33, "q.log").unwrap(),
        "\x1b[32mguest signalled success\x1b[0m (qemu exit 33)"
    );
    assert_eq!(
        verdict(Trial::Run, &outcome(Some(1), false), 33, "q.log").unwrap_err(),
        "guest exited with code 1, expected 33 for success\n  exception trace: q.log"
    );
    assert_eq!(
        verdict(Trial::Tests, &outcome(Some(35), false), 33, "").unwrap_err(),
        "in-kernel tests failed: guest exited 35, expected 33\n  the failing checks are in the console output above"
    );
    assert_eq!(
        verdict(Trial::Stress, &outcome(Some(0), true), 0, "").unwrap(),
        "\n\x1b[32mstress passed\x1b[0m (qemu exit 0)"
    );
    assert_eq!(verdict(Trial::Stress, &outcome(None, false), 0, "").unwrap_err(), "QEMU was terminated by a signal");
}

#[test]
fn a_guest_that_was_killed_says_why() {
    assert!(check_ended(&outcome(Some(0), true), 30).is_ok());
    let late = Outcome { timed_out: true, ..outcome(None, false) };
    assert_eq!(check_ended(&late, 30).unwrap_err(), "timed out after 30s with no exit signal from the guest");
    let hung = Outcome { hung: Some("no heartbeat".to_string()), ..outcome(None, false) };
    assert_eq!(check_ended(&hung, 30).unwrap_err(), "killed by the heartbeat watchdog: no heartbeat");
}

#[test]
fn counts_become_verdicts() {
    let s = Summary { units: 3, passed: 2, failed: 1 };
    assert_eq!(host_line(&s), "\n3 unit(s): \x1b[32m2 passed\x1b[0m, 1 failed");
    assert_eq!(host_verdict(&s).unwrap_err(), "1 unit(s) had failing tests");
    assert!(host_verdict(&Summary { units: 2, passed: 2, failed: 0 }).is_ok());
    assert_eq!(lint_verdict(4).unwrap_err(), "4 cfg-in-body violation(s)");
    assert_eq!(portability_verdict(2).unwrap_err(), "2 build(s) failed the portability check");
    assert!(portability_verdict(0).is_ok());
    assert!(is_kept("cache") && !is_kept("out"));
}

#[test]
fn one_log_and_one_bundle_are_decoded() {
    assert_eq!(symbolize_log(&vec![], "build/t").unwrap(), "build/t/console.log");
    assert_eq!(symbolize_log(&args(&["l"]), "build/t").unwrap(), "l");
    assert_eq!(symbolize_log(&args(&["a", "b"]), "build/t").unwrap_err(), "symbolize takes one log file");
    assert_eq!(symbolize_verdict(0, "l").unwrap_err(), "no backtrace lines (`bt ...`) in l");
    assert_eq!(symbol_bundle(&args(&["k.debug"]), "out").unwrap(), "k.debug");
    assert_eq!(symbol_bundle(&vec![], "out").unwrap_err(), "no symbol bundle (*.debug) in out");
    assert_eq!(symbol_bundle(&args(&["a", "b"]), "out").unwrap_err(), "more than one symbol bundle in out");
}

#[test]
fn a_trap_stub_that_survived_is_refused() {
    assert!(reject_trap_stubs("l.efi", b"plain code").is_ok());
    let e = reject_trap_stubs("l.efi", b"codeKBUILD-UNREACHABLE-INTRINSICmore").unwrap_err();
    assert!(e.starts_with("l.efi calls a compiler intrinsic"), "{e}");
}

const TREE: &str = r#"
config DEBUG
    bool "debug"

config CHECKS
    bool "checks"
    depends on DEBUG

config COUNT
    int "count"
    range 1 9
    default 4
"#;

fn table() -> SymbolTable {
    parse_tree(&vec![SourceFile { path: "t.kcfg".to_string(), text: Ok(TREE.to_string()) }], "t.kcfg").unwrap()
}

fn preset(settings: &[(&str, &str)]) -> Option<Preset> {
    Some(Preset { name: "p".to_string(), settings: sets(settings) })
}

#[test]
fn the_last_set_of_a_symbol_wins() {
    let r = base_requests(
        &preset(&[("DEBUG", "n"), ("COUNT", "2")]),
        &sets(&[("DEBUG", "n"), ("COUNT", "3"), ("DEBUG", "y")]),
    );
    let shown: Vec<(String, String, String)> = r.into_iter().map(|r| (r.symbol, r.text, r.source)).collect();
    assert_eq!(
        shown,
        [
            ("COUNT".to_string(), "3".to_string(), "--set".to_string()),
            ("DEBUG".to_string(), "y".to_string(), "--set".to_string()),
        ]
    );
    let r = base_requests(&preset(&[("DEBUG", "n")]), &vec![]);
    assert_eq!(r[0].source, "preset p");
}

#[test]
fn presets_are_found_by_name_or_by_path() {
    assert_eq!(preset_path("/tree", "x86"), "/tree/config/presets/x86.preset");
    assert_eq!(preset_path("/tree", "./mine.preset"), "./mine.preset");
    assert_eq!(no_preset("x", &args(&["a", "b"])), "no preset `x`\n  available: a, b");
}

#[test]
fn a_configuration_says_how_it_was_generated() {
    let t = table();
    let s = resolve_config(&t, &base_requests(&None, &sets(&[("DEBUG", "y")])), None).unwrap();
    assert!(s.res.is_on("DEBUG") && s.generated.is_none());
    assert_eq!(s.res.int_value("COUNT"), 4);
    let s = resolve_config(&t, &base_requests(&None, &vec![]), Some(Mode::AllYes)).unwrap();
    assert!(s.res.is_on("CHECKS"));
    let said = s.generated.unwrap();
    assert!(said.starts_with("\x1b[36mgenerated\x1b[0m --allyes ("), "{said}");
    assert!(said.contains("DEBUG=y"), "{said}");
    let e = resolve_config(&t, &base_requests(&None, &sets(&[("COUNT", "12")])), None).unwrap_err();
    assert!(e.contains("outside its range"), "{e}");
}

#[test]
fn a_set_that_an_override_rules_out_is_dropped() {
    let t = table();
    let given = sets(&[("DEBUG", "y"), ("CHECKS", "y")]);
    let s = resolve_overridden(&t, &None, &given, &sets(&[("DEBUG", "n")]), None).unwrap();
    assert!(!s.res.is_on("DEBUG") && !s.res.is_on("CHECKS"));
    let e = resolve_overridden(&t, &None, &given, &sets(&[("COUNT", "12")]), None).unwrap_err();
    assert!(e.contains("outside its range"), "{e}");
}

#[test]
fn what_is_generated_never_contradicts_what_was_asked() {
    use_generated(&[("DEBUG", "n"), ("COUNT", "7")]);
    use_generated(&[("CHECKS", "y"), ("DEBUG", "y")]);
}

fn use_generated(asked: &[(&str, &str)]) {
    let t = table();
    let base = base_requests(&None, &sets(asked));
    for seed in 0..50 {
        let (res, all) = generate(&t, &base, Mode::Random(seed)).unwrap();
        for (k, v) in asked {
            assert_eq!(res.value(k).unwrap().display(), *v, "seed {seed}");
        }
        for (i, r) in all.iter().enumerate().skip(base.len()) {
            assert!(all[..i].iter().all(|e| e.symbol != r.symbol), "seed {seed} asks twice for {}", r.symbol);
        }
    }
}

const CHOICE: &str = r#"
config HW
    bool "hw"

choice MODEL
    default BIG

config SMALL
    bool "small"

config BIG
    bool "big"
    depends on HW

endchoice
"#;

#[test]
fn a_choice_has_exactly_one_member_on() {
    let t = parse_tree(&vec![SourceFile { path: "c.kcfg".to_string(), text: Ok(CHOICE.to_string()) }], "c.kcfg").unwrap();
    for (asked, on) in [(vec![], "SMALL"), (vec![("HW", "y")], "BIG"), (vec![("HW", "y"), ("SMALL", "y")], "SMALL")] {
        let s = resolve_config(&t, &base_requests(&None, &sets(&asked)), None).unwrap();
        let held: Vec<&str> = ["SMALL", "BIG"].into_iter().filter(|m| s.res.is_on(m)).collect();
        assert_eq!(held, [on], "{asked:?}");
    }
}

#[test]
fn what_is_sourced_is_found_from_the_entry() {
    let file = |path: &str, text: &str| SourceFile { path: path.to_string(), text: Ok(text.to_string()) };
    let files = vec![
        file("d/a.kcfg", "source \"sub/b.kcfg\"\n"),
        file("d/sub/b.kcfg", "source \"c.kcfg\"\n"),
        file("d/c.kcfg", "config C\n    bool\n"),
    ];
    assert_eq!(sources("d/a.kcfg", "source \"c.kcfg\"\n"), ["d/c.kcfg"]);
    let t = parse_tree(&files, "d/a.kcfg").unwrap();
    assert_eq!(t.symbols.iter().map(|s| s.name.as_str()).collect::<Vec<_>>(), ["C"]);
    let e = parse_tree(&files[..2].iter().map(|f| file(&f.path, f.text.as_ref().unwrap())).collect(), "d/a.kcfg");
    assert_eq!(e.unwrap_err().to_text(), "d/c.kcfg:0: cannot read: no such file");
}
