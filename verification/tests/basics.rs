//! Bytes, texts and digests.

use kbuild::bytes;
use kbuild::crashtest::{has_started, judge_guest, next_delay, ops_seen, Tally, Wide};
use kbuild::crc::crc32;
use kbuild::digest::{hex, Sha256};
use kbuild::diskcheck::{run_copy, volume_bytes, Crashed};
use kbuild::fpregs::{mnemonics, verdict, AARCH64};
use kbuild::fuzz::{campaign_args, file_args, plan, smoke_args, Plan, Run};
use kbuild::image::{check_flat, check_format, file_name, format_for, package, uimage_for, written_line, Format};
use kbuild::kcfg::expr::{parse, Tri};
use kbuild::kcfg::parse::{parse_tree, parse_val_pub, SourceFile};
use kbuild::kcfg::resolve::{Reason, Resolution};
use kbuild::kcfg::{Kind, Val};
use kbuild::lint::check_source;
use kbuild::menuconfig::{clip, parse_keys, terminal_size, Key, Session};
use kbuild::options::{parse_duration, parse_opts};
use kbuild::text;

#[test]
fn numbers_read_back_from_their_bytes() {
    let mut v = Vec::new();
    bytes::push_le16(&mut v, 0x1234);
    bytes::push_le32(&mut v, 0x89ab_cdef);
    bytes::push_be16(&mut v, 0x1234);
    bytes::push_be32(&mut v, 0x89ab_cdef);
    bytes::push_le64(&mut v, 0x0123_4567_89ab_cdef);
    assert_eq!(&v[..8], &[0x34, 0x12, 0xef, 0xcd, 0xab, 0x89, 0x12, 0x34]);
    assert_eq!(bytes::get_le16(&v, 0), 0x1234);
    assert_eq!(bytes::get_le32(&v, 2), 0x89ab_cdef);
    assert_eq!(bytes::get_be16(&v, 6), 0x1234);
    assert_eq!(bytes::get_be32(&v, 8), 0x89ab_cdef);
    assert_eq!(bytes::get_le64(&v, 12), 0x0123_4567_89ab_cdef);
}

#[test]
fn digests_are_the_published_ones() {
    let digest = |data: &[u8]| {
        let mut h = Sha256::new();
        h.update(data);
        hex(&h.finish())
    };
    assert_eq!(digest(b""), "e3b0c44298fc1c149afbf4c8996fb92427ae41e4649b934ca495991b7852b855");
    assert_eq!(digest(b"abc"), "ba7816bf8f01cfea414140de5dae2223b00361a396177a9cb410ff61f20015ad");
    assert_eq!(digest(&[b'a'; 1000]), "41edece42d63e8d9bf515a9ba6932e1c20cbc9f5a5d134645adb5db1b9737ea3");
    assert_eq!(crc32(b"123456789"), 0xcbf4_3926);
}

#[test]
fn texts_are_cut_and_joined() {
    let chars: Vec<char> = "  two words \r\n".chars().collect();
    assert_eq!(text::string(&text::trim(&chars)), "two words");
    assert_eq!(text::split_words(&chars).len(), 2);
    assert_eq!(text::join(&vec!["a".to_string(), "b".to_string()], ", "), "a, b");
    assert_eq!(text::int_text(-40), "-40");
    assert_eq!(text::hex_text(255), "0xff");
    assert_eq!(text::replace("a/b/a", "a", "xy"), "xy/b/xy");
    assert_eq!(text::right_align("7", 3), "  7");
    assert_eq!(text::to_upper("a-b"), "A-B");
}

#[test]
fn letters_beyond_ascii_are_letters() {
    // A symbol may hold any letter or digit there is.
    let e = parse("\u{e9}t\u{e9} && \u{2460}").unwrap();
    assert_eq!(e.to_text(), "(\u{e9}t\u{e9} && \u{2460})");
    assert!(parse("\u{2192}").is_err(), "an arrow is neither");
    // A lifetime may begin with one, so that its quote opens no literal.
    let v = check_source("t.rs", "fn f<'\u{e9}t>() {\n    #[cfg(A)]\n    g();\n}\n");
    assert_eq!(v.len(), 1);
}

#[test]
fn strings_are_written_with_their_escapes() {
    assert_eq!(Val::Str("a \"b\"\n".to_string()).display(), "\"a \\\"b\\\"\\n\"");
    assert_eq!(Val::Hex(255).display(), "0xff");
    assert_eq!(Tri::from_str("m"), Some(Tri::M));
    assert_eq!(Tri::M.as_str(), "m");
}

#[test]
fn raw_bytes_become_keys_and_texts() {
    assert_eq!(parse_keys("\u{e9}\u{20ac}\u{1f600}".as_bytes()), [
        Key::Char('\u{e9}'),
        Key::Char('\u{20ac}'),
        Key::Char('\u{1f600}')
    ]);
    assert_eq!(parse_keys(&[0xff, b'a']), [Key::Char('\u{fffd}')], "what is no text is one key");
    assert_eq!(ops_seen(b"\xff\xfe\nfscrash: 12 ops\n"), 12, "what is not text stays out of the way");
    assert!(has_started(b"\xfffscrash: writing") && !has_started(b"fscrash"));
}

#[test]
fn terminals_say_how_large_they_are() {
    assert_eq!(terminal_size("24 80\n"), (80, 24));
}

#[test]
fn durations_have_units() {
    assert_eq!(parse_duration("90s"), Ok(90));
    assert_eq!(parse_duration("10m"), Ok(600));
    assert_eq!(parse_duration("24h"), Ok(86_400));
    assert!(parse_duration("10").is_err() && parse_duration("").is_err() && parse_duration("xm").is_err());
}

#[test]
fn random_configurations_have_a_seed() {
    let args = |l: &[&str]| l.iter().map(|s| s.to_string()).collect::<Vec<String>>();
    let o = parse_opts(&args(&["--random"]), 5).unwrap();
    assert_eq!(format!("{:?}", o.generate), "Some(Random(5))");
    let o = parse_opts(&args(&["--random", "--seed", "8"]), 5).unwrap();
    assert_eq!(format!("{:?}", o.generate), "Some(Random(8))");
    assert!(parse_opts(&args(&["--random", "--allyes"]), 5).is_err());
    let o = parse_opts(&args(&["--set", "A=b=c"]), 5).unwrap();
    assert_eq!(o.sets, [("A".to_string(), "b=c".to_string())]);
    assert!(parse_opts(&args(&["--set", "A"]), 5).is_err());
}

#[test]
fn a_campaign_is_tallied() {
    let mut seed = 7;
    let first = next_delay(&mut seed);
    assert!(first <= 3000);
    let mut t = Tally::new();
    let c = Crashed { files: 2, lost: 3, fats_differ: 1, crash_files: 1, crash_bytes: 512 };
    let w = Wide { lost: 5, fats_differ: 0, crash_files: 4, crash_bytes: 96 };
    assert_eq!(
        t.consistent(15, 64, &c, &w),
        "  cut   1 after   15 ms,    64+ ops: consistent; 2 files, 3 lost clusters, tables differ in 1; 1 workload files, 512 bytes checked; FAT32: 5 lost, tables differ in 0, 4 files, 96 bytes"
    );
    assert!(t.verdict().is_ok());
    t.inconsistent(20, 1, "claimed twice");
    assert_eq!(t.verdict().unwrap_err(), "1 of 2 cuts left an inconsistent volume; the first, cut 2: claimed twice");
    assert_eq!(
        t.summary(),
        "2 cuts, 1 inconsistent; 1 left lost clusters (at most 5), 1 left the tables apart; at least 65 operations written"
    );
    assert!(judge_guest(true, false, b"").is_ok());
    assert!(judge_guest(false, false, b"boot").unwrap_err().ends_with("its console:\nboot"));
    assert!(judge_guest(true, true, b"boot").is_err());
}

#[test]
fn a_runs_disk_stands_beside_its_image() {
    assert_eq!(run_copy("out/kernel.elf"), "out/testdisk.run.img");
    assert_eq!(volume_bytes(&[7; 1024], 1).unwrap(), &[7; 512]);
    assert!(volume_bytes(&[7; 100], 1).is_err());
}

#[test]
fn programs_are_told_apart_by_their_arithmetic() {
    assert!(mnemonics("aarch64-kintane").is_some() && mnemonics("riscv32-kintane").is_none());
    assert_eq!(verdict("p", "80000104: 1e602821   \tfadd\td1, d1, d0\n", &AARCH64), Ok(1));
    assert!(verdict("p", "80000104: d503201f   \tnop\n", &AARCH64).is_err());
}

#[test]
fn fuzzing_is_planned() {
    let run = |smoke: bool, target: Option<&str>, file: Option<&str>| Run {
        target: target.map(|s| s.to_string()),
        seed: None,
        iterations: 5,
        smoke,
        file: file.map(|s| s.to_string()),
        corpus: None,
    };
    assert!(matches!(plan(&run(true, None, None)), Ok(Plan::Smoke)));
    assert!(matches!(plan(&run(false, None, None)), Ok(Plan::Every)));
    assert!(matches!(plan(&run(false, Some("fdt"), None)), Ok(Plan::Campaign(_))));
    assert!(matches!(plan(&run(false, Some("fdt"), Some("f"))), Ok(Plan::One(_, _))));
    assert_eq!(plan(&run(false, None, Some("f"))).unwrap_err(), "--file names one input, so it needs --target");
    assert_eq!(smoke_args("c"), ["--smoke", "--corpus", "c"]);
    assert_eq!(file_args("t", "f", "c"), ["--target", "t", "--file", "f", "--corpus", "c"]);
    assert_eq!(campaign_args("t", 1, 2, "c")[..6], ["--target", "t", "--seed", "1", "--iterations", "2"]);
}

#[test]
fn images_have_formats() {
    assert_eq!(format_for(Some("uki")), Ok(Format::Uki));
    assert!(format_for(Some("zip")).is_err());
    assert!(check_flat(1).is_ok() && check_flat(u64::MAX).is_err());
    assert!(package("m68k-kintane", b"").is_err());
}

#[test]
fn an_image_is_written_where_its_format_says() {
    let mut res = Resolution::new();
    assert!(check_format(Format::Bin, &res).is_ok());
    let e = check_format(Format::Uki, &res).unwrap_err();
    assert!(e.starts_with("a UKI is the EFI stub's image, and this configuration has no stub; build with"), "{e}");
    res.set("KINBOOT_STUB", Val::Tri(Tri::Y), Reason::Unset);
    assert!(check_format(Format::Uki, &res).is_ok());
    assert_eq!(file_name(Format::Elf), "kintane.img.elf");
    for (f, name) in [(Format::Elf, "elf"), (Format::Bin, "bin"), (Format::Uki, "uki"), (Format::Uimage, "uimage")] {
        assert_eq!(written_line(f, "out/x", 9), format!("  {name:7} out/x (9 bytes)"));
    }
    assert_eq!(uimage_for("x86_64-kintane", b"not an ELF", b"").unwrap_err(), "the kernel image is not an ELF");
}

#[test]
fn an_expression_that_is_written_out_reads_back() {
    for text in ["A", "!A", "A = b-1", "!(A != x)", "A && B || !C && (D || m)", "!!A && (B = y)"] {
        let e = parse(text).unwrap();
        let again = parse(&e.to_text()).unwrap();
        assert_eq!(again, e, "{text}");
        assert_eq!(again.to_text(), e.to_text());
    }
}

#[test]
fn a_screen_is_no_wider_than_its_terminal() {
    let shown = |line: &str| {
        let mut n = 0;
        let mut escape = false;
        for c in line.chars() {
            match (escape, c) {
                (false, '\x1b') => escape = true,
                (false, _) => n += 1,
                (true, c) => escape = !c.is_ascii_alphabetic(),
            }
        }
        n
    };
    for line in ["plain text", "\x1b[7mabc\x1b[0mdef", "\x1b[1m\x1b[2mab", "tail \x1b[", ""] {
        for width in 0..12 {
            let c = clip(line, width);
            assert!(shown(&c) <= width, "{line:?} at {width}: {c:?}");
            if shown(line) <= width {
                assert_eq!(c, line);
            }
        }
    }
}

#[test]
fn bytes_are_decoded_as_far_as_they_are_text() {
    assert_eq!(text::decode(b"plain"), "plain");
    assert_eq!(text::decode("h\u{e9}, \u{6b3d}".as_bytes()), "h\u{e9}, \u{6b3d}");
    assert_eq!(text::decode(&[b'a', 0xff, b'b']), "a\u{fffd}b");
}

#[test]
fn a_screen_is_as_high_as_its_terminal() {
    let source = SourceFile { path: "t.kcfg".to_string(), text: Ok("config X\n    bool \"x\"\n".to_string()) };
    let table = parse_tree(&vec![source], "t.kcfg").unwrap();
    let mut s = Session::new(&table, vec![]).unwrap();
    for height in [8, 9, 24, 40] {
        assert_eq!(s.render(80, height).split("\r\n").count(), height);
    }
    assert_eq!(s.render(80, 0).split("\r\n").count(), 8, "no screen is smaller");
    s.handle(Key::Char('y'));
    s.handle(Key::Char('q'));
    let screen = s.render(80, 24);
    assert_eq!(screen.split("\r\n").count(), 24);
    assert!(screen.split("\r\n").last().unwrap().contains("unsaved changes"), "{screen}");
}

#[test]
fn values_read_back_as_they_are_written() {
    let plain = r"plain ' text, with {brackets} and ~tildes";
    let mut cases = vec![
        (Val::Tri(Tri::N), Kind::Bool, "n".to_string()),
        (Val::Tri(Tri::Y), Kind::Bool, "y".to_string()),
        (Val::Tri(Tri::M), Kind::Tristate, "m".to_string()),
        (Val::Hex(u64::MAX), Kind::Hex, "0xffffffffffffffff".to_string()),
        (Val::Hex(0), Kind::Hex, "0x0".to_string()),
        (Val::Str(plain.to_string()), Kind::Str, format!("\"{plain}\"")),
        (Val::Str(String::new()), Kind::Str, "\"\"".to_string()),
    ];
    for i in [i64::MIN, -10, 0, 7, i64::MAX] {
        cases.push((Val::Int(i), Kind::Int, i.to_string()));
    }
    for (v, kind, text) in cases {
        assert_eq!(v.display(), text);
        assert_eq!(parse_val_pub(&text, kind).unwrap().display(), text);
        assert_eq!(parse_val_pub(&text, kind), Ok(v));
    }
    assert!(parse_val_pub("m", Kind::Bool).is_err());
    assert_eq!(parse_val_pub("m", Kind::Tristate), Ok(Val::Tri(Tri::M)));
}
