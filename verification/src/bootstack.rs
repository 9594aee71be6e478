//! Whether the boot stack that a kernel image reserves is the one its configuration asks for.
//!
//! `BOOT_STACK_KIB` sizes the stack that the first thread of execution runs on, and each port's
//! linker script reserves it. A script that forgot the option would forget an assertion about it
//! too, so every linked kernel is checked from the outside, from the symbols that every port
//! defines: `__stack_bottom` and `__stack_top` must be that far apart, rounded up to at most one
//! page.

use vstd::prelude::*;
use vstd::string::*;

use crate::text;

verus! {

/// The largest page that any port rounds its boot stack up to.
pub const PAGE: u64 = 4096;

/// The address that a line of a symbol listing gives `name`: its first word, if its third is that
/// name.
pub open spec fn address_in(line: Seq<char>, name: Seq<char>) -> Option<int> {
    let w = text::words(line, 0);
    if w.len() >= 3 && w[2] == name && !(w[0].len() > 0 && w[0][0] == '-') {
        text::number_within(w[0], 16, 0, u64::MAX as int)
    } else {
        None
    }
}

/// The address that the lines from `i` on give `name`: the first that do.
pub open spec fn address_of(lines: Seq<Seq<char>>, name: Seq<char>, i: int) -> Option<int>
    decreases lines.len() - i,
{
    if i < 0 || i >= lines.len() {
        None
    } else if address_in(lines[i], name) is Some {
        address_in(lines[i], name)
    } else {
        address_of(lines, name, i + 1)
    }
}

/// The bytes that an image reserves for its boot stack, or what is wrong with them.
pub open spec fn reserved_of(listing: Seq<char>, kib: int) -> Result<int, Seq<char>> {
    let lines = text::lines(listing, 0);
    match (address_of(lines, "__stack_bottom"@, 0), address_of(lines, "__stack_top"@, 0)) {
        (Some(bottom), Some(top)) => {
            let wanted = kib * 1024;
            let reserved = if top > bottom {
                top - bottom
            } else {
                0
            };
            if kib < 0 {
                Err("BOOT_STACK_KIB is "@ + text::decimal(kib))
            } else if reserved < wanted || reserved >= wanted + PAGE {
                Err(
                    "the kernel image reserves a "@ + text::decimal(reserved) + "-byte boot stack ("@
                        + text::hexadecimal(bottom) + ".."@ + text::hexadecimal(top)
                        + "), but BOOT_STACK_KIB asks for "@ + text::decimal(wanted)
                        + " bytes: its port does not size the boot stack from the configuration"@,
                )
            } else {
                Ok(reserved)
            }
        },
        _ => Err(
            "the kernel image defines no __stack_bottom and __stack_top, so its boot stack cannot be checked against BOOT_STACK_KIB"@,
        ),
    }
}

fn read_address(line: &[char], name: &str) -> (r: Option<u64>)
    ensures
        match r {
            Some(a) => address_in(line@, name@) == Some(a as int),
            None => address_in(line@, name@) == None::<int>,
        },
{
    let w = text::split_words(line);
    if w.len() < 3 {
        return None;
    }
    assert(text::char_views(w@)[0] == w@[0]@ && text::char_views(w@)[2] == w@[2]@);
    if !text::same_chars(w[2].as_slice(), text::chars(name).as_slice()) {
        return None;
    }
    text::parse_u64(w[0].as_slice(), 16)
}

fn find_address(lines: &Vec<Vec<char>>, name: &str) -> (r: Option<u64>)
    ensures
        match r {
            Some(a) => address_of(text::char_views(lines@), name@, 0) == Some(a as int),
            None => address_of(text::char_views(lines@), name@, 0) == None::<int>,
        },
{
    let mut i: usize = 0;
    while i < lines.len()
        invariant
            i <= lines@.len(),
            address_of(text::char_views(lines@), name@, 0) == address_of(text::char_views(lines@), name@, i as int),
        decreases lines@.len() - i,
    {
        assert(text::char_views(lines@)[i as int] == lines@[i as int]@);
        if let Some(a) = read_address(lines[i].as_slice(), name) {
            return Some(a);
        }
        i += 1;
    }
    None
}

/// Check a symbol listing of a linked kernel against a configured size of `kib` KiB.
pub fn check_listing(listing: &str, kib: i64) -> (r: Result<u64, String>)
    ensures
        match r {
            Ok(n) => reserved_of(listing@, kib as int) == Ok::<int, Seq<char>>(n as int),
            Err(e) => reserved_of(listing@, kib as int) == Err::<int, Seq<char>>(e@),
        },
{
    let lines = text::split_lines(text::chars(listing).as_slice());
    if let Some(bottom) = find_address(&lines, "__stack_bottom") {
        if let Some(top) = find_address(&lines, "__stack_top") {
            if kib < 0 {
                let mut m = "BOOT_STACK_KIB is ".to_owned();
                m.append(text::int_text(kib as i128).as_str());
                return Err(m);
            }
            let wanted: i128 = kib as i128 * 1024;
            let reserved: u64 = if top > bottom {
                top - bottom
            } else {
                0
            };
            if (reserved as i128) < wanted || reserved as i128 >= wanted + PAGE as i128 {
                let mut m = "the kernel image reserves a ".to_owned();
                m.append(text::int_text(reserved as i128).as_str());
                m.append("-byte boot stack (");
                m.append(text::hex_text(bottom as u128).as_str());
                m.append("..");
                m.append(text::hex_text(top as u128).as_str());
                m.append("), but BOOT_STACK_KIB asks for ");
                m.append(text::int_text(wanted).as_str());
                m.append(" bytes: its port does not size the boot stack from the configuration");
                return Err(m);
            }
            return Ok(reserved);
        }
    }
    Err(
        "the kernel image defines no __stack_bottom and __stack_top, so its boot stack cannot be checked against BOOT_STACK_KIB".to_owned(),
    )
}

} // verus!
