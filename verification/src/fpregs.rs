//! Whether a program built for the hard-float target really does use floating-point instructions.
//!
//! If the hard-float target ever silently stopped working, a program would still build and still
//! pass: on a soft-float target a multiplication is a call that computes the same answer. So the
//! image is checked from the outside, by its disassembly.
//!
//! Arithmetic mnemonics tell the two apart on every port. Register names do not: the disassembler
//! prints an instruction's encoding beside it, and a byte such as `d1` reads as a register.

use vstd::prelude::*;
use vstd::string::*;

use crate::bytes;
use crate::text;

verus! {

/// The instructions that only a hard-float build emits. Arithmetic and conversion, not moves: a
/// soft-float build moves floats around in general-purpose registers happily.
pub const X86_64: [&'static str; 8] = [
    "mulsd",
    "addsd",
    "subsd",
    "divsd",
    "mulss",
    "addss",
    "cvtsi2sd",
    "cvttsd2si",
];

pub const AARCH64: [&'static str; 6] = ["fmul", "fadd", "fsub", "fdiv", "scvtf", "fcvtzs"];

/// What a list of texts holds.
pub open spec fn spelled(v: Seq<&str>) -> Seq<Seq<char>> {
    v.map_values(|s: &str| s@)
}

/// The mnemonics to look for in a program built for a target.
pub open spec fn mnemonics_of(target: Seq<char>) -> Option<Seq<Seq<char>>> {
    if bytes::begins(target, "x86_64"@) {
        Some(spelled(X86_64@))
    } else if bytes::begins(target, "aarch64"@) {
        Some(spelled(AARCH64@))
    } else {
        None
    }
}

fn begins_with(s: &str, p: &str) -> (r: bool)
    ensures
        r == bytes::begins(s@, p@),
{
    let a = text::chars(s);
    let b = text::chars(p);
    if b.len() > a.len() {
        return false;
    }
    text::same_chars(text::part(a.as_slice(), 0, b.len()).as_slice(), b.as_slice())
}

fn listed(v: &[&'static str]) -> (r: Vec<&'static str>)
    ensures
        r@ == v@,
{
    let mut r: Vec<&'static str> = Vec::new();
    let mut i: usize = 0;
    while i < v.len()
        invariant
            i <= v@.len(),
            r@ =~= v@.subrange(0, i as int),
        decreases v@.len() - i,
    {
        r.push(v[i]);
        i += 1;
    }
    assert(v@.subrange(0, i as int) =~= v@);
    r
}

/// The mnemonics to look for in a program built for `target_name`, or `None` where the
/// architecture has no hard-float specification and no program can ask for one.
pub fn mnemonics(target_name: &str) -> (r: Option<Vec<&'static str>>)
    ensures
        match r {
            Some(v) => mnemonics_of(target_name@) == Some(spelled(v@)),
            None => mnemonics_of(target_name@) == None::<Seq<Seq<char>>>,
        },
{
    if begins_with(target_name, "x86_64") {
        Some(listed(X86_64.as_slice()))
    } else if begins_with(target_name, "aarch64") {
        Some(listed(AARCH64.as_slice()))
    } else {
        None
    }
}

/// Where a mnemonic that begins at `i` ends: at the next tab or space.
pub open spec fn mnemonic_end(s: Seq<char>, i: int) -> int
    decreases s.len() - i,
{
    if i >= s.len() || s[i] == '\t' || s[i] == ' ' {
        i
    } else {
        mnemonic_end(s, i + 1)
    }
}

/// The mnemonic of a line of a listing: what follows the first tab behind the address, up to the
/// next tab or space.
pub open spec fn mnemonic(line: Seq<char>) -> Option<Seq<char>> {
    let colon = text::next_of(line, ':', 0);
    let tab = text::next_of(line, '\t', colon + 1);
    if colon >= line.len() || tab >= line.len() {
        None
    } else {
        Some(line.subrange(tab + 1, mnemonic_end(line, tab + 1)))
    }
}

/// Whether a line holds one of the instructions.
pub open spec fn counts(line: Seq<char>, wanted: Seq<Seq<char>>) -> bool {
    mnemonic(line) is Some && wanted.contains(mnemonic(line)->0)
}

/// How many of the first `n` lines hold one of the instructions.
pub open spec fn count_lines(lines: Seq<Seq<char>>, wanted: Seq<Seq<char>>, n: nat) -> nat
    decreases n,
{
    if n == 0 {
        0
    } else {
        count_lines(lines, wanted, (n - 1) as nat) + if counts(lines[n - 1], wanted) {
            1nat
        } else {
            0
        }
    }
}

fn holds_one(line: &[char], wanted: &[&str]) -> (r: bool)
    ensures
        r == counts(line@, spelled(wanted@)),
{
    let ghost len = line.len();
    let colon: usize = text::find_char(line, ':', 0);
    if colon >= line.len() {
        return false;
    }
    let tab: usize = text::find_char(line, '\t', colon + 1);
    if tab >= line.len() {
        return false;
    }
    let mut end: usize = tab + 1;
    while end < line.len() && line[end] != '\t' && line[end] != ' '
        invariant
            tab + 1 <= end <= line@.len() == len,
            mnemonic_end(line@, tab + 1) == mnemonic_end(line@, end as int),
        decreases line@.len() - end,
    {
        end += 1;
    }
    let word = text::string(text::part(line, tab + 1, end).as_slice());
    let mut i: usize = 0;
    while i < wanted.len()
        invariant
            i <= wanted@.len(),
            mnemonic(line@) == Some(word@),
            forall|k: int| 0 <= k < i ==> #[trigger] spelled(wanted@)[k] != word@,
        decreases wanted@.len() - i,
    {
        assert(spelled(wanted@)[i as int] == wanted@[i as int]@);
        if text::same(wanted[i], word.as_str()) {
            return true;
        }
        i += 1;
    }
    false
}

/// Count the floating-point arithmetic instructions in a disassembly listing.
///
/// A line is an address, a colon, the encoding's bytes, a tab, the mnemonic, and its operands. The
/// tab is what tells where the mnemonic begins: "the first field that is not hexadecimal" would
/// not, since `fadd` is four hexadecimal digits.
pub fn count_in_listing(listing: &str, wanted: &[&str]) -> (r: usize)
    ensures
        r == count_lines(text::lines(listing@, 0), spelled(wanted@), text::lines(listing@, 0).len()),
{
    let lines = text::split_lines(text::chars(listing).as_slice());
    let ghost all = text::lines(listing@, 0);
    let mut n: usize = 0;
    let mut i: usize = 0;
    while i < lines.len()
        invariant
            i <= lines@.len(),
            text::char_views(lines@) == all,
            n <= i,
            n == count_lines(all, spelled(wanted@), i as nat),
        decreases lines@.len() - i,
    {
        assert(text::char_views(lines@)[i as int] == lines@[i as int]@);
        if holds_one(lines[i].as_slice(), wanted) {
            n += 1;
        }
        i += 1;
    }
    n
}

fn owned(v: &[&str]) -> (r: Vec<String>)
    ensures
        text::views(r@) == spelled(v@),
{
    let mut r: Vec<String> = Vec::new();
    let mut i: usize = 0;
    while i < v.len()
        invariant
            i <= v@.len(),
            r@.len() == i,
            forall|k: int| 0 <= k < i ==> (#[trigger] r@[k])@ == v@[k]@,
        decreases v@.len() - i,
    {
        r.push(v[i].to_owned());
        i += 1;
    }
    assert(text::views(r@) =~= spelled(v@));
    r
}

/// Require floating-point arithmetic in a program's listing.
pub fn verdict(program: &str, listing: &str, wanted: &[&str]) -> (r: Result<usize, String>)
    ensures
        ({
            let n = count_lines(text::lines(listing@, 0), spelled(wanted@), text::lines(listing@, 0).len());
            match r {
                Ok(k) => k == n && n > 0,
                Err(e) => n == 0 && e@ == program@
                    + " was built for the hard-float target but holds no floating-point arithmetic ("@ + text::joined(
                    spelled(wanted@),
                    ", "@,
                )
                    + "): it was built soft-float, so every float in it is a call into compiler_builtins and the hard-float target is not doing anything"@,
            }
        }),
{
    let n: usize = count_in_listing(listing, wanted);
    if n == 0 {
        let mut m = program.to_owned();
        m.append(" was built for the hard-float target but holds no floating-point arithmetic (");
        m.append(text::join(&owned(wanted), ", ").as_str());
        m.append(
            "): it was built soft-float, so every float in it is a call into compiler_builtins and the hard-float target is not doing anything",
        );
        return Err(m);
    }
    Ok(n)
}

} // verus!
