//! Editing a configuration.

use kbuild::kcfg::expr::Tri;
use kbuild::kcfg::parse::{parse_tree, SourceFile};
use kbuild::kcfg::resolve::{resolve, Request};
use kbuild::kcfg::SymbolTable;
use kbuild::menuconfig::{clip, parse_keys, Action, Item, Key, Node, Session, SOURCE};

fn table(src: &str) -> SymbolTable {
    parse_tree(&vec![SourceFile { path: "t.kcfg".to_string(), text: Ok(src.to_string()) }], "t.kcfg").unwrap()
}

fn req(pairs: &[(&str, &str)]) -> Vec<Request> {
    pairs
        .iter()
        .map(|(s, v)| Request {
            symbol: s.to_string(),
            text: v.to_string(),
            source: "test".into(),
        })
        .collect()
}

const TREE: &str = r#"
config ARCH_HAS_SMP
    bool
    readonly
    default y

menu "Kernel"

config SMP
    bool "Symmetric multiprocessing"
    depends on ARCH_HAS_SMP
    default y
    help
        More than one CPU.

config NUMA
    bool "NUMA"
    select SMP

config NR_CPUS
    int "CPUs"
    depends on SMP
    range 2 64
    default 8

config NAME
    string "Name"
    default "kintane"

config DRIVER
    tristate "A driver"

endmenu

choice ARCH
    prompt "Architecture"
    default A1
    config A1
        bool "First"
    config A2
        bool "Second"
endchoice
"#;

fn keys(s: &mut Session, ks: &[Key]) -> Action {
    let mut last = Action::Continue;
    for k in ks {
        last = s.handle(*k);
    }
    last
}

fn down(n: usize) -> Vec<Key> {
    vec![Key::Down; n]
}

#[test]
fn the_tree_follows_menus_and_choices_in_declaration_order() {
    let t = table(TREE);
    let s = Session::new(&t, vec![]).unwrap();
    assert_eq!(
        s.items(&Node::Root),
        vec![
            Item::Symbol("ARCH_HAS_SMP".into()),
            Item::Menu(0),
            Item::Choice("ARCH".into())
        ]
    );
    assert_eq!(s.items(&Node::Menu(0)).len(), 5);
    assert_eq!(
        s.items(&Node::Choice("ARCH".into())),
        vec![Item::Symbol("A1".into()), Item::Symbol("A2".into())]
    );
}

#[test]
fn toggling_goes_through_the_resolver_and_is_recorded_as_a_change() {
    let t = table(TREE);
    let mut s = Session::new(&t, vec![]).unwrap();
    // Into "Kernel", onto SMP, toggle it off: NR_CPUS goes with it.
    keys(&mut s, &[Key::Down, Key::Enter, Key::Char(' ')]);
    assert!(!s.resolution().is_on("SMP"));
    assert_eq!(s.resolution().int_value("NR_CPUS"), 0);
    assert_eq!(
        s.requests(),
        req(&[("SMP", "n")])
            .into_iter()
            .map(|mut r| {
                r.source = SOURCE.into();
                r
            })
            .collect::<Vec<_>>()
    );
    assert!(s.render(100, 30).contains("(needs SMP)"), "{}", s.render(100, 30));
}

#[test]
fn a_change_the_resolver_refuses_is_explained_and_not_applied() {
    let t = table(TREE);
    let mut s = Session::new(&t, req(&[("NUMA", "y")])).unwrap();
    keys(&mut s, &[Key::Down, Key::Enter, Key::Char('n')]);
    assert!(s.resolution().is_on("SMP"), "still on");
    assert_eq!(s.requests(), req(&[("NUMA", "y")]), "and not recorded to be saved");
    let screen = s.render(120, 30);
    assert!(screen.contains("cannot set SMP=n"), "{screen}");
    assert!(screen.contains("selected by NUMA"), "{screen}");
    // The forced symbol is drawn as forced.
    assert!(screen.contains("-*- Symmetric multiprocessing"), "{screen}");
}

#[test]
fn picking_a_choice_member_overrides_the_presets_pick() {
    let t = table(TREE);
    let mut s = Session::new(&t, req(&[("A1", "y")])).unwrap();
    keys(&mut s, &[Key::Down, Key::Down, Key::Enter, Key::Down, Key::Enter]);
    assert!(s.resolution().is_on("A2"));
    assert!(!s.resolution().is_on("A1"));
    assert!(s.render(100, 30).contains("(X) Second"));
}

#[test]
fn values_are_edited_and_ranges_hold() {
    let t = table(TREE);
    let mut s = Session::new(&t, vec![]).unwrap();
    let mut ks = vec![Key::Down, Key::Enter];
    ks.extend(down(2)); // NR_CPUS
    ks.extend([
        Key::Enter,
        Key::Backspace,
        Key::Char('3'),
        Key::Char('2'),
        Key::Enter,
    ]);
    keys(&mut s, &ks);
    assert_eq!(s.resolution().int_value("NR_CPUS"), 32);

    keys(&mut s, &[Key::Enter, Key::Char('0'), Key::Char('0'), Key::Enter]);
    assert_eq!(s.resolution().int_value("NR_CPUS"), 32, "3200 is out of range");
    assert!(s.render(120, 30).contains("outside its range"));

    keys(&mut s, &[Key::Down, Key::Enter, Key::Char('!'), Key::Esc]);
    assert_eq!(s.resolution().str("NAME"), "kintane", "escape cancels");
}

#[test]
fn m_without_modules_is_refused_with_the_reason() {
    let t = table(TREE);
    let mut s = Session::new(&t, vec![]).unwrap();
    let mut ks = vec![Key::Down, Key::Enter];
    ks.extend(down(4));
    ks.push(Key::Char('m'));
    keys(&mut s, &ks);
    let screen = s.render(160, 30);
    assert!(screen.contains("cannot set DRIVER=m"), "{screen}");
    assert!(screen.contains("loadable modules do not exist yet"), "{screen}");
    keys(&mut s, &[Key::Char(' ')]);
    assert_eq!(s.resolution().tri("DRIVER"), Tri::Y, "space steps n to y without modules");
}

#[test]
fn readonly_symbols_cannot_be_changed_and_why_explains_a_select() {
    let t = table(TREE);
    let mut s = Session::new(&t, req(&[("NUMA", "y")])).unwrap();
    keys(&mut s, &[Key::Char('n')]);
    assert!(s.render(120, 30).contains("ARCH_HAS_SMP is readonly"));

    keys(&mut s, &[Key::Down, Key::Enter, Key::Char('w')]);
    let screen = s.render(120, 30);
    assert!(screen.contains("SMP is selected by NUMA"), "{screen}");
    assert!(screen.contains("NUMA is set by test"), "{screen}");
    keys(&mut s, &[Key::Char('x')]);
    keys(&mut s, &[Key::Char('?')]);
    assert!(s.render(120, 30).contains("More than one CPU."));
}

#[test]
fn quitting_with_unsaved_changes_asks_first_and_saving_clears_it() {
    let t = table(TREE);
    let mut s = Session::new(&t, vec![]).unwrap();
    assert_eq!(keys(&mut s, &[Key::Char('q')]), Action::Quit, "nothing to lose");
    keys(&mut s, &[Key::Down, Key::Enter, Key::Char('n')]);
    assert_eq!(keys(&mut s, &[Key::Char('q')]), Action::Continue);
    assert!(s.render(120, 30).contains("unsaved changes"));
    assert_eq!(keys(&mut s, &[Key::Char('x')]), Action::Continue, "stays");
    keys(&mut s, &[Key::Char('q')]);
    assert_eq!(keys(&mut s, &[Key::Char('s')]), Action::SaveAndQuit);
    s.saved("saved".into());
    assert_eq!(keys(&mut s, &[Key::Char('q')]), Action::Quit);
}

#[test]
fn the_saved_preset_rebuilds_the_same_configuration() {
    let t = table(TREE);
    let mut s = Session::new(&t, req(&[("A1", "y"), ("NUMA", "y")])).unwrap();
    s.set("A2", "y");
    s.set("NAME", "renamed");
    s.set("NUMA", "n");
    let text = s.preset_text("preset test");

    let again: Vec<Request> = text
        .lines()
        .filter(|l| !l.starts_with('#'))
        .filter_map(|l| l.split_once('='))
        .map(|(symbol, text)| Request {
            symbol: symbol.to_string(),
            text: text.to_string(),
            source: "file".into(),
        })
        .collect();
    let res = resolve(&t, &again).unwrap();
    assert!(res.same_values(s.resolution()), "{text}");
    assert_eq!(text.matches("NUMA=").count(), 1, "one line per symbol: {text}");
    assert!(text.contains("NAME=\"renamed\""), "{text}");
}

#[test]
fn keys_parse_from_raw_bytes_including_several_in_one_read() {
    assert_eq!(
        parse_keys(b"\x1b[A\x1b[Bj\r\x7f\x1bq"),
        vec![
            Key::Up,
            Key::Down,
            Key::Char('j'),
            Key::Enter,
            Key::Backspace,
            Key::Esc,
            Key::Char('q')
        ]
    );
    assert_eq!(parse_keys(b"\x1b[3~x"), vec![Key::Char('x')], "unused sequences are skipped");
}

#[test]
fn a_terminal_that_reports_no_size_still_gets_a_readable_screen() {
    let t = table(TREE);
    let s = Session::new(&t, vec![]).unwrap();
    let screen = s.render(0, 0);
    assert!(screen.contains("KinTane config"), "{screen:?}");
}

#[test]
fn clipping_counts_characters_not_escapes() {
    assert_eq!(clip("\x1b[7mabcdef\x1b[0m", 3), "\x1b[7mabc\x1b[0m");
    assert_eq!(clip("ab", 5), "ab");
}
