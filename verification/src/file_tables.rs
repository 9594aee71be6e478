//! How the tables of files in a line-number program are read, said of the bytes themselves.

use vstd::prelude::*;
use vstd::string::*;

use crate::dwarf;
use crate::dwarf::{Datum, Given, Regs, Row, Strs};
use crate::text;

verus! {

proof fn zeros_end(d: Seq<u8>, z: int, p: int)
    requires
        0 <= p <= z < d.len(),
        d[z] == 0,
        forall|i: int| p <= i < z ==> #[trigger] d[i] != 0,
    ensures
        dwarf::nul(d, p) == z,
    decreases z - p,
{
    if p < z {
        assert(d[p] != 0);
        zeros_end(d, z, p + 1);
    }
}

/// A text ends at the first byte that is zero, and what follows it stands right behind.
pub proof fn texts_end_at_zero(d: Seq<u8>, p: int, z: int)
    requires
        0 <= p <= z < d.len(),
        d[z] == 0,
        forall|i: int| p <= i < z ==> 0 < #[trigger] d[i] < 0x80,
    ensures
        ({
            let s = Seq::new((z - p) as nat, |i: int| d[p + i] as char);
            &&& dwarf::text_at(d, p) == Some(s)
            &&& dwarf::string(d, p) == Ok::<(Seq<char>, int), Seq<char>>((s, z + 1))
        }),
{
    zeros_end(d, z, p);
    let b = d.subrange(p, z);
    assert forall|i: int| 0 <= i < b.len() implies #[trigger] b[i] < 0x80 by {
        assert(b[i] == d[p + i]);
    }
    text::ascii_is_itself(b);
    let s = text::as_chars(b);
    assert forall|i: int| 0 <= i < s.len() implies '\0' <= #[trigger] s[i] <= '\u{7f}' by {
        assert(b[i] < 0x80);
    }
    vstd::utf8::is_ascii_chars_encode_utf8(s);
    assert(s =~= Seq::new((z - p) as nat, |i: int| d[p + i] as char));
}

/// A field of a table is as wide as its form says, a number is what stands there, and a text that stands
/// elsewhere is found in the section that the form names.
pub proof fn forms_say_what_a_field_holds(d: Seq<u8>, p: int, strs: Strs, wide: bool, little: bool)
    requires
        0 <= p,
        p + 16 <= d.len(),
    ensures
        ({
            let holds = |form: u64| dwarf::form_value(d, p, form, strs, wide, little);
            let number = |n: nat| dwarf::uint(d, p, n, little)->Ok_0.0;
            let w: nat = if wide {
                8
            } else {
                4
            };
            let told = |s: Seq<u8>| match dwarf::text_at(s, number(w)) {
                Some(t) => t,
                None => seq![],
            };
            &&& holds(0x0b) == Ok::<(Datum, int), Seq<char>>((Datum::Number(d[p] as int), p + 1))
            &&& holds(0x05) == Ok::<(Datum, int), Seq<char>>((Datum::Number(number(2)), p + 2))
            &&& holds(0x06) == Ok::<(Datum, int), Seq<char>>((Datum::Number(number(4)), p + 4))
            &&& holds(0x07) == Ok::<(Datum, int), Seq<char>>((Datum::Number(number(8)), p + 8))
            &&& holds(0x1e) == Ok::<(Datum, int), Seq<char>>((Datum::Other, p + 16))
            &&& holds(0x0e) == Ok::<(Datum, int), Seq<char>>((Datum::Text(told(strs.plain)), p + w))
            &&& holds(0x1f) == Ok::<(Datum, int), Seq<char>>((Datum::Text(told(strs.line_str)), p + w))
            &&& d[p] < 0x80 ==> holds(0x0f) == Ok::<(Datum, int), Seq<char>>((Datum::Number(d[p] as int), p + 1))
            &&& d[p] < 15 ==> holds(0x09) == Ok::<(Datum, int), Seq<char>>((Datum::Other, p + 1 + d[p]))
            &&& d[p] == 0 ==> holds(0x08) == Ok::<(Datum, int), Seq<char>>((Datum::Text(seq![]), p + 1))
            &&& holds(0x01) is Err
        }),
{
    crate::line_program::short_numbers_of_variable_length(d, p);
    one_byte_is_a_number(d, p, little);
    if d[p] == 0 {
        texts_end_at_zero(d, p, p);
        assert(Seq::new(0, |i: int| d[p + i] as char) =~= seq![]);
    }
}

proof fn one_byte_is_a_number(d: Seq<u8>, p: int, little: bool)
    requires
        0 <= p < d.len(),
    ensures
        dwarf::uint(d, p, 1, little) == Ok::<(int, int), Seq<char>>((d[p] as int, p + 1)),
{
    reveal_with_fuel(dwarf::le_num, 2);
    reveal_with_fuel(dwarf::be_num, 2);
}

/// A row of a table is filled field by field: a text that is a path gives the path, a number that is a
/// directory gives the directory, and anything else is passed over.
pub proof fn fields_fill_their_row(
    d: Seq<u8>,
    p: int,
    fs: Seq<(u64, u64)>,
    i: int,
    row: Row,
    strs: Strs,
    wide: bool,
    little: bool,
)
    requires
        0 <= i < fs.len(),
        dwarf::form_value(d, p, fs[i].1, strs, wide, little) is Ok,
    ensures
        ({
            let (v, q) = dwarf::form_value(d, p, fs[i].1, strs, wide, little)->Ok_0;
            let rest = |r: Row| dwarf::fields(d, q, fs, i + 1, r, strs, wide, little);
            let all = dwarf::fields(d, p, fs, i, row, strs, wide, little);
            &&& v is Text && fs[i].0 == 1 ==> all == rest(Row { path: v->Text_0, dir: row.dir })
            &&& v is Number && fs[i].0 == 2 ==> all == rest(Row { path: row.path, dir: v->Number_0 })
            &&& v is Other || v is Text && fs[i].0 != 1 || v is Number && fs[i].0 != 2 ==> all == rest(row)
        }),
{
}

/// Rows are read one behind the other, as many as the table says.
pub proof fn tables_have_the_rows_they_say(
    d: Seq<u8>,
    p: int,
    n: nat,
    fs: Seq<(u64, u64)>,
    got: Seq<Row>,
    strs: Strs,
    wide: bool,
    little: bool,
)
    requires
        dwarf::rows(d, p, n, fs, got, strs, wide, little) is Ok,
    ensures
        ({
            let all = dwarf::rows(d, p, n, fs, got, strs, wide, little)->Ok_0.0;
            let first = dwarf::fields(d, p, fs, 0, Row { path: seq![], dir: 0 }, strs, wide, little);
            &&& all.len() == got.len() + n
            &&& all.subrange(0, got.len() as int) == got
            &&& n > 0 ==> first is Ok && all[got.len() as int] == first->Ok_0.0
        }),
    decreases n,
{
    if n > 0 {
        let (r, q) = dwarf::fields(d, p, fs, 0, Row { path: seq![], dir: 0 }, strs, wide, little)->Ok_0;
        tables_have_the_rows_they_say(d, q, (n - 1) as nat, fs, got.push(r), strs, wide, little);
        let all = dwarf::rows(d, p, n, fs, got, strs, wide, little)->Ok_0.0;
        let front = all.subrange(0, got.len() as int + 1);
        assert(front == got.push(r));
        assert(front[got.len() as int] == r);
        assert(all.subrange(0, got.len() as int) =~= front.subrange(0, got.len() as int));
        assert(got.push(r).subrange(0, got.len() as int) =~= got);
    } else {
        assert(got.subrange(0, got.len() as int) =~= got);
    }
}

/// From the fifth version on, files count from none, each in the directory that it names; before it they
/// count from one, and so do the directories, for the first is the one that was compiled in.
pub proof fn files_stand_in_their_directories(
    d: Seq<u8>,
    p: int,
    version: int,
    strs: Strs,
    wide: bool,
    little: bool,
    i: int,
)
    requires
        dwarf::file_names(d, p, version, strs, wide, little) is Ok,
        0 <= i < dwarf::file_names(d, p, version, strs, wide, little)->Ok_0.len(),
    ensures
        ({
            let names = dwarf::file_names(d, p, version, strs, wide, little)->Ok_0;
            let (dirs, q) = dwarf::entries(d, p, strs, wide, little)->Ok_0;
            let (files, _) = dwarf::entries(d, q, strs, wide, little)->Ok_0;
            &&& version >= 5 ==> names.len() == files.len()
            &&& version >= 5 && 0 <= files[i].dir < dirs.len() ==> names[i] == dwarf::joined(
                dirs[files[i].dir].path,
                files[i].path,
            )
            &&& version < 5 ==> names[0] == "<file 0>"@
        }),
{
    if version < 5 {
        let (dirs, q) = dwarf::old_dirs(d, p, seq![seq![]])->Ok_0;
        old_files_stay(d, q, dirs, seq!["<file 0>"@]);
        let names = dwarf::file_names(d, p, version, strs, wide, little)->Ok_0;
        assert(names.subrange(0, 1)[0] == names[0]);
    }
}

proof fn old_files_stay(d: Seq<u8>, p: int, dirs: Seq<Seq<char>>, got: Seq<Seq<char>>)
    requires
        dwarf::old_files(d, p, dirs, got) is Ok,
    ensures
        ({
            let all = dwarf::old_files(d, p, dirs, got)->Ok_0.0;
            all.len() >= got.len() && all.subrange(0, got.len() as int) == got
        }),
    decreases d.len() + 1 - p,
{
    let (name, q) = dwarf::string(d, p)->Ok_0;
    let all = dwarf::old_files(d, p, dirs, got)->Ok_0.0;
    if name.len() > 0 {
        let (dir, r) = dwarf::old_entry(d, q)->Ok_0;
        dwarf::string_advances(d, p);
        dwarf::old_entry_advances(d, q);
        let x = dwarf::joined(dwarf::dir_at(dirs, dir as int), name);
        old_files_stay(d, r, dirs, got.push(x));
        let front = all.subrange(0, got.len() as int + 1);
        assert(all.subrange(0, got.len() as int) =~= front.subrange(0, got.len() as int));
        assert(got.push(x).subrange(0, got.len() as int) =~= got);
    } else {
        assert(got.subrange(0, got.len() as int) =~= got);
    }
}

/// In the older tables a directory is a text, and an empty one ends them; a file is a text, the number of its
/// directory and two numbers that do not matter, and an empty text ends those.
pub proof fn older_tables_end_with_an_empty_text(
    d: Seq<u8>,
    p: int,
    q: int,
    r: int,
    s: Seq<char>,
    dir: u64,
    dirs: Seq<Seq<char>>,
    got: Seq<Seq<char>>,
)
    requires
        dwarf::string(d, p) == Ok::<(Seq<char>, int), Seq<char>>((s, q)),
    ensures
        s.len() == 0 ==> dwarf::old_dirs(d, p, got) == Ok::<(Seq<Seq<char>>, int), Seq<char>>((got, q)),
        s.len() == 0 ==> dwarf::old_files(d, p, dirs, got) == Ok::<(Seq<Seq<char>>, int), Seq<char>>((got, q)),
        s.len() > 0 ==> dwarf::old_dirs(d, p, got) == dwarf::old_dirs(d, q, got.push(s)),
        s.len() > 0 && dwarf::old_entry(d, q) == Ok::<(u64, int), Seq<char>>((dir, r)) && dir < dirs.len()
            ==> dwarf::old_files(d, p, dirs, got) == dwarf::old_files(
            d,
            r,
            dirs,
            got.push(dwarf::joined(dirs[dir as int], s)),
        ),
{
}

/// A file of an older table names its directory with its first number; two more follow.
pub proof fn older_files_name_their_directory(d: Seq<u8>, p: int)
    requires
        0 <= p,
        p + 3 <= d.len(),
        d[p] < 0x80,
        d[p + 1] < 0x80,
        d[p + 2] < 0x80,
    ensures
        dwarf::old_entry(d, p) == Ok::<(u64, int), Seq<char>>((d[p] as u64, p + 3)),
{
    crate::line_program::short_numbers_of_variable_length(d, p);
    crate::line_program::short_numbers_of_variable_length(d, p + 1);
    crate::line_program::short_numbers_of_variable_length(d, p + 2);
}

/// A length of all ones says that the real one follows in eight bytes, and the lengths just below it say
/// nothing.
pub proof fn long_units_say_so(d: Seq<u8>, p: int, little: bool)
    requires
        0 <= p,
        p + 12 <= d.len(),
    ensures
        ({
            let n = dwarf::uint(d, p, 4, little)->Ok_0.0;
            let m = dwarf::uint(d, p + 4, 8, little)->Ok_0.0;
            &&& n < 0xffff_fff0 ==> dwarf::unit_length(d, p, little) == Ok::<(int, int, bool), Seq<char>>((n, p + 4, false))
            &&& 0xffff_fff0 <= n < 0xffff_ffff ==> dwarf::unit_length(d, p, little) is Err
            &&& n == 0xffff_ffff ==> dwarf::unit_length(d, p, little) == Ok::<(int, int, bool), Seq<char>>(
                (m, p + 12, true),
            )
        }),
{
}

/// A program starts at address none, on the first line of the first file, with no row before, and goes on
/// with what was given out before it.
pub proof fn programs_start_on_the_first_line(
    d: Seq<u8>,
    p: int,
    strs: Strs,
    little: bool,
    size: int,
    g: Given,
    names: Seq<Seq<char>>,
)
    requires
        dwarf::head_of(d, p, little, size) is Ok,
        ({
            let h = dwarf::head_of(d, p, little, size)->Ok_0;
            dwarf::file_names(d, h.tables, h.version, strs, h.wide, little) == Ok::<Seq<Seq<char>>, Seq<char>>(names)
        }),
    ensures
        ({
            let h = dwarf::head_of(d, p, little, size)->Ok_0;
            let (all, files) = dwarf::all_interned(g.names, names, names.len());
            let start = Regs { pos: h.program, addr: 0, file: 1, line: 1, prev: None, files, names: all, spans: g.spans };
            let end = dwarf::ran(d, h, start, little);
            &&& end is Err ==> dwarf::unit_of(d, p, strs, little, size, g) is Err
            &&& end is Ok ==> dwarf::unit_of(d, p, strs, little, size, g) == Ok::<(int, Given), Seq<char>>(
                (h.end, Given { names: end->Ok_0.names, spans: end->Ok_0.spans }),
            )
        }),
{
}

/// A signed number of two bytes is negative where the highest bit of its second seven is set.
pub proof fn signed_numbers_extend_their_sign(d: Seq<u8>, p: int)
    requires
        0 <= p,
        p + 1 < d.len(),
        d[p] >= 0x80,
        d[p + 1] < 0x80,
    ensures
        ({
            let n = d[p] - 0x80 + 0x80 * d[p + 1];
            &&& d[p + 1] < 0x40 ==> dwarf::sleb(d, p) == Ok::<(i64, int), Seq<char>>((n as i64, p + 2))
            &&& d[p + 1] >= 0x40 ==> dwarf::sleb(d, p) == Ok::<(i64, int), Seq<char>>(((n - 0x4000) as i64, p + 2))
        }),
{
    let (b, c) = (d[p], d[p + 1]);
    let w = (b & 0x7f) as u64;
    assert(0u64 | (((b & 0x7f) as u64) << 0u64) == (b & 0x7f) as u64) by (bit_vector);
    assert(b >= 0x80 ==> b & 0x80 != 0) by (bit_vector);
    assert(c < 0x80 ==> c & 0x80 == 0) by (bit_vector);
    assert(c < 0x40 ==> c & 0x40 == 0) by (bit_vector);
    assert(0x40 <= c < 0x80 ==> c & 0x40 != 0) by (bit_vector);
    assert(b >= 0x80 && c < 0x40 ==> (((b & 0x7f) as u64) | (((c & 0x7f) as u64) << 7u64)) as i64 == b - 0x80 + 0x80 * c)
        by (bit_vector);
    assert(b >= 0x80 && 0x40 <= c < 0x80 ==> ((((b & 0x7f) as u64) | (((c & 0x7f) as u64) << 7u64)) | (
    0xffff_ffff_ffff_ffffu64 << 14u64)) as i64 == b - 0x80 + 0x80 * c - 0x4000) by (bit_vector);
    assert(dwarf::sleb_from(d, p, 0, 0) == dwarf::sleb_from(d, p + 1, 7, w));
}

} // verus!
