//! The build script of the module SDK: each argument that an in-tree build passes, with the kernel
//! tree's paths replaced by the SDK's, so that a module built from the SDK is byte for byte what
//! the tree builds from the same source.

use vstd::prelude::*;
use vstd::string::*;

use crate::text;

verus! {

/// Whether a character needs a backslash between double quotes in a shell script.
pub open spec fn special(c: char) -> bool {
    c == '"' || c == '$' || c == '`' || c == '\\'
}

/// The first `n` characters of a text as they stand between double quotes in a shell script.
pub open spec fn escaped(s: Seq<char>, n: nat) -> Seq<char>
    decreases n,
{
    if n == 0 {
        seq![]
    } else if special(s[n - 1]) {
        escaped(s, (n - 1) as nat).push('\\').push(s[n - 1])
    } else {
        escaped(s, (n - 1) as nat).push(s[n - 1])
    }
}

/// A text in double quotes.
pub open spec fn shell_quoted(s: Seq<char>) -> Seq<char> {
    seq!['"'] + escaped(s, s.len()) + seq!['"']
}

/// A text in double quotes, for a shell script.
pub fn quote(s: &str) -> (r: String)
    ensures
        r@ == shell_quoted(s@),
{
    let b = text::chars(s);
    let mut r = String::new();
    r.push('"');
    let mut i: usize = 0;
    assert(r@ =~= seq!['"'] + escaped(s@, 0));
    while i < b.len()
        invariant
            i <= b@.len(),
            b@ == s@,
            r@ == seq!['"'] + escaped(s@, i as nat),
        decreases b@.len() - i,
    {
        let c: char = b[i];
        if c == '"' || c == '$' || c == '`' || c == '\\' {
            r.push('\\');
        }
        r.push(c);
        assert(r@ =~= seq!['"'] + escaped(s@, (i + 1) as nat));
        i += 1;
    }
    let ghost front = r@;
    r.push('"');
    assert(r@ =~= front + seq!['"']);
    r
}

/// The paths of a build, which the script's variables stand for.
pub struct Places {
    pub out: String,
    pub spec_path: String,
    pub spec_file: String,
    pub sysroot: String,
    pub root: String,
}

/// An argument as the script passes it. The longest path goes first: a module's own build directory
/// is inside the tree's.
pub open spec fn relocated(a: Seq<char>, p: Places) -> Seq<char> {
    let q = shell_quoted(a);
    let q = text::replaced(q, p.out@, "$SDK/lib"@);
    let q = text::replaced(q, p.spec_path@, "$SDK/"@ + p.spec_file@);
    let q = text::replaced(q, p.sysroot@, "$SYSROOT"@);
    let q = text::replaced(q, p.root@, "$SDK"@);
    let q = text::replaced(q, "@DIR@/@FILE@"@, "$SRC"@);
    let q = text::replaced(q, "@DIR@"@, "$SRCDIR"@);
    text::replaced(q, "@NAME@"@, "$NAME"@)
}

/// Whether every path is there to be replaced.
pub open spec fn placed(p: Places) -> bool {
    p.out@.len() > 0 && p.spec_path@.len() > 0 && p.sysroot@.len() > 0 && p.root@.len() > 0
}

fn relocate(a: &str, p: &Places) -> (r: String)
    requires
        placed(*p),
    ensures
        r@ == relocated(a@, *p),
{
    proof {
        reveal_strlit("@DIR@/@FILE@");
        reveal_strlit("@DIR@");
        reveal_strlit("@NAME@");
    }
    let mut spec_place = "$SDK/".to_owned();
    spec_place.append(p.spec_file.as_str());
    let q = quote(a);
    let q = text::replace(q.as_str(), p.out.as_str(), "$SDK/lib");
    let q = text::replace(q.as_str(), p.spec_path.as_str(), spec_place.as_str());
    let q = text::replace(q.as_str(), p.sysroot.as_str(), "$SYSROOT");
    let q = text::replace(q.as_str(), p.root.as_str(), "$SDK");
    let q = text::replace(q.as_str(), "@DIR@/@FILE@", "$SRC");
    let q = text::replace(q.as_str(), "@DIR@", "$SRCDIR");
    text::replace(q.as_str(), "@NAME@", "$NAME")
}

/// The script's lines for the arguments from `i` on. The crate's name is the script's to choose.
pub open spec fn lines_from(args: Seq<Seq<char>>, p: Places, i: int) -> Seq<Seq<char>>
    decreases
            if i < args.len() {
                args.len() - i
            } else {
                0
            },
{
    if i < 0 || i >= args.len() {
        seq![]
    } else if args[i] == "--crate-name"@ {
        if i + 1 < args.len() {
            seq!["  --crate-name \"$CRATE\""@] + lines_from(args, p, i + 2)
        } else {
            seq![]
        }
    } else {
        seq!["  "@ + relocated(args[i], p)] + lines_from(args, p, i + 1)
    }
}

fn script_lines(args: &Vec<String>, p: &Places) -> (r: Vec<String>)
    requires
        placed(*p),
    ensures
        text::views(r@) == lines_from(text::views(args@), *p, 0),
{
    let ghost all = text::views(args@);
    let mut out: Vec<String> = Vec::new();
    let mut i: usize = 0;
    assert(text::views(out@) + lines_from(all, *p, 0) =~= lines_from(all, *p, 0));
    let ghost len = args.len();
    while i < args.len()
        invariant
            i <= args@.len() == len,
            all == text::views(args@),
            placed(*p),
            text::views(out@) + lines_from(all, *p, i as int) == lines_from(all, *p, 0),
        decreases args@.len() - i,
    {
        assert(all[i as int] == args@[i as int]@);
        let ghost before = text::views(out@);
        if text::same(args[i].as_str(), "--crate-name") {
            if i + 1 < args.len() {
                let ghost rest = lines_from(all, *p, i + 2);
                text::push_text(&mut out, "  --crate-name \"$CRATE\"");
                assert(before + (seq!["  --crate-name \"$CRATE\""@] + rest) =~= before.push(
                    "  --crate-name \"$CRATE\""@,
                ) + rest);
                i += 2;
            } else {
                assert(before + Seq::<Seq<char>>::empty() =~= before);
                return out;
            }
        } else {
            let mut line = "  ".to_owned();
            line.append(relocate(args[i].as_str(), p).as_str());
            let ghost rest = lines_from(all, *p, i + 1);
            text::push_text(&mut out, line.as_str());
            assert(before + (seq![line@] + rest) =~= before.push(line@) + rest);
            i += 1;
        }
    }
    assert(text::views(out@) + Seq::<Seq<char>>::empty() =~= text::views(out@));
    out
}

/// The script up to the toolchain's commit.
pub const HEAD: &'static str = "#!/bin/sh\n# Build an out-of-tree KinTane module against this SDK's kernel build.\n#\n#   build-module.sh SRC NAME OUT\n#\n# SRC is the module crate's root (src/lib.rs), NAME the module's name, OUT the .kmod to\n# write. Generated by `kbuild sdk`; the flags below are the kernel build's own. A module\n# is valid for exactly one kernel build: this one (see IDENTITY).\nset -eu\nif [ $# -ne 3 ]; then\n  echo \"usage: $0 SRC NAME OUT\" >&2\n  exit 2\nfi\nSDK=$(cd \"$(dirname \"$0\")\" && pwd)\nSRC=$1\nNAME=$2\nOUT=$3\nSRCDIR=$(cd \"$(dirname \"$SRC\")\" && pwd)\nSRC=\"$SRCDIR/$(basename \"$SRC\")\"\nSRCDIR=$(dirname \"$SRCDIR\")\nCRATE=$(printf '%s' \"$NAME\" | tr - _)\nRUSTC=${RUSTC:-rustc}\n\n# The toolchain must be the one the kernel was built with, not a compatible one.\nversion=$(\"$RUSTC\" -vV)\ncase \"$version\" in\n  *\"commit-hash: ";

/// The script from the toolchain's release on.
pub const REFUSAL: &'static str = "\"*) ;;\n  *) echo \"this SDK needs rustc ";

/// The script up to the compiler's arguments.
pub const CALL: &'static str = "); $RUSTC is not it\" >&2; exit 1 ;;\nesac\nSYSROOT=$(\"$RUSTC\" --print sysroot)\nHOST=$(printf '%s\\n' \"$version\" | sed -n 's/^host: //p')\nTOOLS=\"$SYSROOT/lib/rustlib/$HOST/bin\"\n\nWORK=$(mktemp -d)\ntrap 'rm -rf \"$WORK\"' EXIT\nSOURCE_DATE_EPOCH=0 \"$RUSTC\" \\\n";

/// The script from the end of the compiler's arguments on.
pub const TAIL: &'static str = " \\\n  -o \"$WORK/lib$CRATE.a\"\n\"$TOOLS/rust-lld\" -flavor gnu -r --whole-archive \"$WORK/lib$CRATE.a\" -o \"$WORK/$NAME.o\"\n\"$TOOLS/llvm-objcopy\" --strip-debug --remove-section=.llvmbc --remove-section=.llvmcmd \\\n  --add-section=.kintane.identity=\"$SDK/identity.section\" \\\n  --set-section-flags=.kintane.identity=readonly \"$WORK/$NAME.o\" \"$OUT\"\n";

/// The SDK's build script.
pub open spec fn script(args: Seq<Seq<char>>, p: Places, release: Seq<char>, commit: Seq<char>) -> Seq<char> {
    HEAD@ + commit + REFUSAL@ + release + " ("@ + commit + CALL@ + text::joined(lines_from(args, p, 0), " \\\n"@) + TAIL@
}

/// The SDK's build script, from every argument that the compiler would be given for a module called
/// `@NAME@` whose root is `@DIR@/@FILE@`.
pub fn sdk_script(args: &Vec<String>, p: &Places, release: &str, commit: &str) -> (r: String)
    requires
        placed(*p),
    ensures
        r@ == script(text::views(args@), *p, release@, commit@),
{
    let lines = script_lines(args, p);
    let mut r = HEAD.to_owned();
    r.append(commit);
    r.append(REFUSAL);
    r.append(release);
    r.append(" (");
    r.append(commit);
    r.append(CALL);
    r.append(text::join(&lines, " \\\n").as_str());
    r.append(TAIL);
    r
}

} // verus!
