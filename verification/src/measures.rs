//! The measures that the rest is taken by: numbers in bytes, sums over bytes, and what is found by name, said
//! of the bytes and the lists themselves.

use vstd::prelude::*;
use vstd::string::*;

use crate::build;
use crate::build::Target;
use crate::bytes;
use crate::crc;
use crate::graph;
use crate::kcfg;
use crate::kcfg::expr::Tri;
use crate::kcfg::parse;
use crate::kcfg::resolve;
use crate::kcfg::Kind;
use crate::lint;
use crate::menuconfig;
use crate::qemu::wire;
use crate::readings;
use crate::selections;
use crate::text;

verus! {

/// A number in bytes has its lowest byte first, or last, as its name says.
pub proof fn numbers_are_made_of_bytes(s: Seq<u8>, i: int)
    requires
        0 <= i,
        i + 8 <= s.len(),
    ensures
        bytes::le16(s, i) == s[i] + 256 * s[i + 1],
        bytes::be16(s, i) == s[i + 1] + 256 * s[i],
        bytes::le32(s, i) == bytes::le16(s, i) + 65536 * bytes::le16(s, i + 2),
        bytes::be32(s, i) == bytes::be16(s, i + 2) + 65536 * bytes::be16(s, i),
        bytes::le64(s, i) == bytes::le32(s, i) + 4294967296 * bytes::le32(s, i + 4),
{
}

/// A number that fits in one byte is that byte and zeros.
pub proof fn small_numbers_are_one_byte(x: u8)
    ensures
        bytes::le16_bytes(x as int) == seq![x, 0u8],
        bytes::be16_bytes(x as int) == seq![0u8, x],
        bytes::le32_bytes(x as int) == seq![x, 0u8, 0u8, 0u8],
        bytes::be32_bytes(x as int) == seq![0u8, 0u8, 0u8, x],
        bytes::le64_bytes(x as int) == seq![x, 0u8, 0u8, 0u8, 0u8, 0u8, 0u8, 0u8],
{
    assert(bytes::le64_bytes(x as int) =~= seq![x, 0u8, 0u8, 0u8, 0u8, 0u8, 0u8, 0u8]);
}

/// Bytes that are written into others stand where they were put, and nothing else changes.
pub proof fn only_the_new_bytes_change(s: Seq<u8>, at: int, new: Seq<u8>, i: int)
    requires
        0 <= at,
        at + new.len() <= s.len(),
        0 <= i < s.len(),
    ensures
        bytes::splice(s, at, new).len() == s.len(),
        bytes::splice(s, at, new).subrange(at, at + new.len()) == new,
        i < at || at + new.len() <= i ==> bytes::splice(s, at, new)[i] == s[i],
{
    assert(bytes::splice(s, at, new).subrange(at, at + new.len()) =~= new);
}

/// Words are summed two bytes at a time: the first of two is worth 256 times the second, a last byte alone
/// counts as the first, and the sum over two parts is that of both, where the first is of whole words.
pub proof fn words_are_summed(a: Seq<u8>, b: Seq<u8>, i: int)
    requires
        a.len() % 2 == 0,
        0 <= i <= a.len(),
        i % 2 == 0,
    ensures
        wire::word_sum(a + b, i) == wire::word_sum(a, i) + wire::word_sum(b, 0),
        a.len() == 2 ==> wire::word_sum(a, 0) == 256 * a[0] + a[1],
        b.len() == 1 ==> wire::word_sum(b, 0) == 256 * b[0],
        b.len() == 0 ==> wire::word_sum(b, 0) == 0,
    decreases a.len() - i,
{
    if i < a.len() {
        words_are_summed(a, b, i + 2);
        assert((a + b)[i] == a[i] && (a + b)[i + 1] == a[i + 1]);
    } else {
        words_behind(a, b, 0);
    }
    if a.len() == 2 {
        assert(wire::word_sum(a, 2) == 0);
    }
}

proof fn words_behind(a: Seq<u8>, b: Seq<u8>, i: int)
    requires
        0 <= i,
    ensures
        wire::word_sum(a + b, a.len() + i) == wire::word_sum(b, i),
    decreases b.len() - i,
{
    if i < b.len() {
        assert((a + b)[a.len() + i] == b[i]);
        if i + 1 < b.len() {
            assert((a + b)[a.len() + i + 1] == b[i + 1]);
            words_behind(a, b, i + 2);
        }
    }
}

/// A checksum is what is missing to all ones, where the sum fits in a word; a sum beyond that starts over
/// behind all ones.
pub proof fn checksums_complete_the_sum(b: Seq<u8>)
    ensures
        0 <= wire::word_sum(b, 0) <= 0xffff ==> wire::checksum(b) == 0xffff - wire::word_sum(b, 0),
        wire::word_sum(b, 0) > 0xffff ==> 0 <= wire::checksum(b) < 0xffff && (wire::checksum(b) + wire::word_sum(b, 0))
            % 0xffff == 0,
{
    let n = wire::word_sum(b, 0);
    if n > 0xffff {
        let q = (n - 1) / 0xffff;
        assert(n - 1 == 0xffff * q + (n - 1) % 0xffff);
        assert((wire::checksum(b) + n) == 0xffff * (q + 1));
    }
}

/// A bit that leaves a cyclic sum at the bottom comes back as the polynomial, and one that is clear as
/// nothing; a byte takes eight such steps.
pub proof fn cyclic_sums_shift_bit_by_bit(c: u32, b: Seq<u8>, n: nat)
    requires
        n < b.len(),
    ensures
        c < 0x8000_0000 ==> crc::shifted((2 * c) as u32) == c,
        c < 0x8000_0000 ==> crc::shifted((2 * c + 1) as u32) == c ^ 0xEDB8_8320,
        crc::register(b, n + 1) == crc::shifted(crc::shifted_by(crc::register(b, n) ^ (b[n as int] as u32), 7)),
        crc::shifted_by(c, 0) == c,
        crc::register(b, 0) == 0xFFFF_FFFF,
{
    if c < 0x8000_0000 {
        let (even, odd) = ((2 * c) as u32, (2 * c + 1) as u32);
        assert(even & 1 == 0 && even >> 1 == c) by (bit_vector)
            requires
                c < 0x8000_0000,
                even == 2 * c,
        ;
        assert(odd & 1 == 1 && odd >> 1 == c) by (bit_vector)
            requires
                c < 0x8000_0000,
                odd == 2 * c + 1,
        ;
    }
}

/// What was asked of a symbol last is what is meant, and what was changed is asked after what was there.
pub proof fn the_last_text_is_meant(asked: Seq<resolve::Ask>, name: Seq<char>, k: nat, a: int)
    requires
        0 <= a < k <= asked.len(),
        asked[a].symbol == name,
        forall|b: int| a < b < k ==> (#[trigger] asked[b]).symbol != name,
    ensures
        menuconfig::last_text(asked, name, k) == Some(asked[a].text),
    decreases k,
{
    if a < k - 1 {
        assert(asked[k - 1].symbol != name);
        the_last_text_is_meant(asked, name, (k - 1) as nat, a);
    }
}

/// An attribute for tests stands at the beginning of its line, whatever blanks are before it.
pub proof fn tests_are_marked_at_the_beginning(line: Seq<char>)
    ensures
        lint::marks_test(line, false) <==> selections::reads(text::trimmed(line), 0, "#[cfg(test)]"@),
        lint::marks_test(line, true) <==> selections::reads(text::trimmed(line), 0, "#![cfg(test)]"@),
{
    let t = text::trimmed(line);
    fronts_are_beginnings(t, "#[cfg(test)]"@);
    fronts_are_beginnings(t, "#![cfg(test)]"@);
}

proof fn fronts_are_beginnings(s: Seq<char>, p: Seq<char>)
    ensures
        bytes::begins(s, p) <==> selections::reads(s, 0, p),
{
    if p.len() <= s.len() {
        let front = s.subrange(0, p.len() as int);
        if bytes::begins(s, p) {
            assert forall|k: int| 0 <= k < p.len() implies s[0 + k] == #[trigger] p[k] by {
                assert(front[k] == s[k]);
            }
        }
        if selections::reads(s, 0, p) {
            assert forall|k: int| 0 <= k < p.len() implies front[k] == p[k] by {
                assert(s[0 + k] == p[k]);
            }
            assert(front =~= p);
        }
    }
}

/// A line holds a `cfg` where one of the two forms of the attribute stands anywhere in it.
pub proof fn cfgs_are_found_anywhere(line: Seq<char>)
    ensures
        lint::has_cfg(line) <==> (exists|i: int| 0 <= i && #[trigger] selections::reads(line, i, "#[cfg("@)) || (exists|
            i: int,
        |
            0 <= i && #[trigger] selections::reads(line, i, "#![cfg("@)),
{
    selections::the_first_place_is_found(line, "#[cfg("@, 0);
    selections::the_first_place_is_found(line, "#![cfg("@, 0);
    if bytes::find(line, "#[cfg("@, 0) is Some {
        let i = bytes::find(line, "#[cfg("@, 0)->0;
        assert(selections::reads(line, i, "#[cfg("@));
    }
    if bytes::find(line, "#![cfg("@, 0) is Some {
        let i = bytes::find(line, "#![cfg("@, 0)->0;
        assert(selections::reads(line, i, "#![cfg("@));
    }
}

/// The compiler is told a target by its name, or by the file that describes it.
pub proof fn targets_are_told_as_they_are(t: Target)
    ensures
        t matches Target::Spec(p) ==> build::target_arg(t) == p@,
        t matches Target::Builtin(n) ==> build::target_arg(t) == n@,
{
}

/// A unit is found by its name, the first where there are several.
pub proof fn units_are_found_by_name(units: Seq<graph::Node>, name: Seq<char>, k: int, i: int)
    requires
        0 <= i <= k <= units.len(),
        k < units.len() ==> units[k].name == name,
        forall|j: int| i <= j < k ==> (#[trigger] units[j]).name != name,
    ensures
        graph::place(units, name, i) == if k < units.len() {
            Some(k)
        } else {
            None
        },
    decreases k - i,
{
    if i < k {
        assert(units[i].name != name);
        units_are_found_by_name(units, name, k, i + 1);
    }
}

/// A switch is asked for by its letter, and a module only where a symbol can be one.
pub proof fn switches_are_asked_for_by_letter(t: Seq<char>)
    ensures
        text::trimmed(t) == seq!['y'] ==> parse::value_of(t, Kind::Bool) == Ok::<kcfg::Value, Seq<char>>(
            kcfg::Value::Tri(Tri::Y),
        ) && parse::value_of(t, Kind::Tristate) == Ok::<kcfg::Value, Seq<char>>(kcfg::Value::Tri(Tri::Y)),
        text::trimmed(t) == seq!['n'] ==> parse::value_of(t, Kind::Bool) == Ok::<kcfg::Value, Seq<char>>(
            kcfg::Value::Tri(Tri::N),
        ) && parse::value_of(t, Kind::Tristate) == Ok::<kcfg::Value, Seq<char>>(kcfg::Value::Tri(Tri::N)),
        text::trimmed(t) == seq!['m'] ==> parse::value_of(t, Kind::Bool) is Err && parse::value_of(t, Kind::Tristate)
            == Ok::<kcfg::Value, Seq<char>>(kcfg::Value::Tri(Tri::M)),
{
    let (y, n, m) = (seq!['y'], seq!['n'], seq!['m']);
    assert(y[0] == 'y' && n[0] == 'n' && m[0] == 'm');
}

proof fn nothing_is_dropped(s: Seq<char>, c: char)
    requires
        forall|i: int| 0 <= i < s.len() ==> #[trigger] s[i] != c,
    ensures
        parse::without(s, c) == s,
    decreases s.len(),
{
    if s.len() > 0 {
        assert(s[s.len() - 1] != c);
        let front = s.drop_last();
        assert forall|i: int| 0 <= i < front.len() implies #[trigger] front[i] != c by {
            assert(front[i] == s[i]);
        }
        nothing_is_dropped(front, c);
        assert(front.push(s.last()) =~= s);
    }
}

/// A number behind `0x` is in hexadecimal, for a symbol of either kind of number.
pub proof fn numbers_may_be_in_hexadecimal(t: Seq<char>, n: nat)
    requires
        text::trimmed(t) == seq!['0', 'x'] + text::digits(n, 16),
        n <= i64::MAX,
    ensures
        parse::value_of(t, Kind::Int) == Ok::<kcfg::Value, Seq<char>>(kcfg::Value::Int(n as int)),
        parse::value_of(t, Kind::Hex) == Ok::<kcfg::Value, Seq<char>>(kcfg::Value::Hex(n as int)),
{
    let d = text::digits(n, 16);
    let s = seq!['0', 'x'] + d;
    readings::numbers_read_back(n, 16);
    assert(0 <= text::digit(d[0]) < 16);
    assert forall|i: int| 0 <= i < s.len() implies #[trigger] s[i] != '_' by {
        if i >= 2 {
            assert(s[i] == d[i - 2]);
            assert(0 <= text::digit(d[i - 2]) < 16);
        }
    }
    nothing_is_dropped(s, '_');
    assert(s.subrange(2, s.len() as int) =~= d);
}

} // verus!
