//! Just enough ELF and DWARF to turn an address into a file and line.
//!
//! The pinned `llvm-tools` component has `llvm-nm` and `llvm-objcopy`, but neither
//! `llvm-symbolizer` nor `llvm-addr2line`. Taking either from the host would make a
//! decoded crash report depend on whichever LLVM that machine has installed. Function names
//! still come from the pinned `llvm-nm`, because it can demangle v0 symbols. File and line come
//! from here.
//!
//! This reads `.debug_line` only: the line-number program, versions 2 through 5. It does
//! not read `.debug_info`, so it knows the innermost line an address came from but not
//! the chain of inlined calls that led there. `.debug_line` is also the section
//! `llvm-objcopy --only-keep-debug` keeps intact, so this works on the separate symbol
//! bundle and needs no copy of the code.
//!
//! Addresses and line numbers are kept in 64 bits and wrap.

use vstd::prelude::*;
use vstd::slice::slice_subrange;
use vstd::string::*;

use crate::text;

verus! {

// ---- numbers and strings at a position ----

/// The number in `n` bytes from `p` on, low byte first.
pub open spec fn le_num(d: Seq<u8>, p: int, n: nat) -> int
    decreases n,
{
    if n == 0 {
        0
    } else {
        d[p] + 256 * le_num(d, p + 1, (n - 1) as nat)
    }
}

/// The number in `n` bytes from `p` on, high byte first.
pub open spec fn be_num(d: Seq<u8>, p: int, n: nat) -> int
    decreases n,
{
    if n == 0 {
        0
    } else {
        256 * be_num(d, p, (n - 1) as nat) + d[p + n - 1]
    }
}

/// The number of `n` bytes at `p` and where the next thing is, if the bytes are there.
pub open spec fn uint(d: Seq<u8>, p: int, n: nat, little: bool) -> Result<(int, int), Seq<char>> {
    if p < 0 || p + n > d.len() {
        Err("truncated"@)
    } else {
        Ok(
            (
                if little {
                    le_num(d, p, n)
                } else {
                    be_num(d, p, n)
                },
                p + n,
            ),
        )
    }
}

/// 256 to the `n`th.
pub open spec fn p256(n: nat) -> int
    decreases n,
{
    if n == 0 {
        1
    } else {
        256 * p256((n - 1) as nat)
    }
}

proof fn num_bounds(d: Seq<u8>, p: int, n: nat)
    ensures
        0 <= le_num(d, p, n) < p256(n),
        0 <= be_num(d, p, n) < p256(n),
    decreases n,
{
    if n > 0 {
        num_bounds(d, p + 1, (n - 1) as nat);
        num_bounds(d, p, (n - 1) as nat);
    }
}

proof fn p256_values()
    ensures
        p256(1) == 0x100,
        p256(2) == 0x1_0000,
        p256(4) == 0x1_0000_0000,
        p256(8) == 0x1_0000_0000_0000_0000,
{
    reveal_with_fuel(p256, 9);
}

proof fn p256_grows(i: nat, n: nat)
    requires
        i <= n,
    ensures
        0 < p256(i) <= p256(n),
    decreases n,
{
    if i < n {
        p256_grows(i, (n - 1) as nat);
    } else if n > 0 {
        p256_grows((n - 1) as nat, (n - 1) as nat);
    }
}

fn truncated() -> (r: String)
    ensures
        r@ == "truncated"@,
{
    "truncated".to_owned()
}

fn read_uint(d: &[u8], p: usize, n: usize, little: bool) -> (r: Result<(u64, usize), String>)
    requires
        n <= 8,
    ensures
        match r {
            Ok((v, q)) => uint(d@, p as int, n as nat, little) == Ok::<(int, int), Seq<char>>((v as int, q as int)) && v
                < p256(n as nat) && q == p + n && q <= d@.len(),
            Err(m) => uint(d@, p as int, n as nat, little) == Err::<(int, int), Seq<char>>(m@),
        },
{
    if p > d.len() || d.len() - p < n {
        return Err(truncated());
    }
    let ghost len = d.len();
    let mut v: u64 = 0;
    let mut i: usize = 0;
    while i < n
        invariant
            n <= 8,
            p + n <= d@.len() == len,
            i <= n,
            v == if little {
                le_num(d@, p + n - i, i as nat)
            } else {
                be_num(d@, p as int, i as nat)
            },
        decreases n - i,
    {
        proof {
            num_bounds(d@, p + n - i, i as nat);
            num_bounds(d@, p as int, i as nat);
            p256_grows(i as nat, 7);
            reveal_with_fuel(p256, 9);
        }
        let b: u8 = if little {
            d[p + (n - 1 - i)]
        } else {
            d[p + i]
        };
        v = v * 256 + b as u64;
        i += 1;
    }
    proof {
        num_bounds(d@, p as int, n as nat);
    }
    Ok((v, p + n))
}

/// The unsigned LEB128 number whose bytes from `p` on follow those that gave `v`, the next one
/// standing `shift` bits up.
pub open spec fn uleb_from(d: Seq<u8>, p: int, shift: int, v: u64) -> Result<(u64, int), Seq<char>>
    decreases d.len() - p,
{
    if p < 0 || p >= d.len() {
        Err("truncated"@)
    } else {
        let b = d[p];
        let w = if shift < 64 {
            v | (((b & 0x7f) as u64) << (shift as u64))
        } else {
            v
        };
        if b & 0x80 == 0 {
            Ok((w, p + 1))
        } else {
            uleb_from(d, p + 1, shift + 7, w)
        }
    }
}

/// The unsigned LEB128 number at `p`.
pub open spec fn uleb(d: Seq<u8>, p: int) -> Result<(u64, int), Seq<char>> {
    uleb_from(d, p, 0, 0)
}

/// The bits of the signed LEB128 number whose bytes from `p` on follow those that gave `v`.
pub open spec fn sleb_from(d: Seq<u8>, p: int, shift: int, v: u64) -> Result<(u64, int), Seq<char>>
    decreases d.len() - p,
{
    if p < 0 || p >= d.len() {
        Err("truncated"@)
    } else {
        let b = d[p];
        let w = if shift < 64 {
            v | (((b & 0x7f) as u64) << (shift as u64))
        } else {
            v
        };
        if b & 0x80 == 0 {
            if shift + 7 < 64 && b & 0x40 != 0 {
                Ok((w | (0xffff_ffff_ffff_ffffu64 << ((shift + 7) as u64)), p + 1))
            } else {
                Ok((w, p + 1))
            }
        } else {
            sleb_from(d, p + 1, shift + 7, w)
        }
    }
}

/// The signed LEB128 number at `p`.
pub open spec fn sleb(d: Seq<u8>, p: int) -> Result<(i64, int), Seq<char>> {
    match sleb_from(d, p, 0, 0) {
        Ok((v, q)) => Ok((v as i64, q)),
        Err(e) => Err(e),
    }
}

fn read_uleb(d: &[u8], p: usize) -> (r: Result<(u64, usize), String>)
    ensures
        match r {
            Ok((v, q)) => uleb(d@, p as int) == Ok::<(u64, int), Seq<char>>((v, q as int)) && p < q <= d@.len(),
            Err(m) => uleb(d@, p as int) == Err::<(u64, int), Seq<char>>(m@),
        },
{
    let mut at: usize = p;
    let mut v: u64 = 0;
    // Past 64 bits the bytes add nothing, so the shift need not grow.
    let mut shift: u64 = 0;
    let ghost mut true_shift: int = 0;
    loop
        invariant
            p <= at,
            shift < 64 ==> true_shift == shift,
            shift >= 64 ==> true_shift >= 64,
            shift <= 70,
            uleb_from(d@, at as int, true_shift, v) == uleb(d@, p as int),
        decreases d@.len() - at,
    {
        if at >= d.len() {
            return Err(truncated());
        }
        let b: u8 = d[at];
        if shift < 64 {
            v = v | (((b & 0x7f) as u64) << shift);
            shift = shift + 7;
        }
        at = at + 1;
        if b & 0x80 == 0 {
            return Ok((v, at));
        }
        proof {
            true_shift = true_shift + 7;
        }
    }
}

fn read_sleb(d: &[u8], p: usize) -> (r: Result<(i64, usize), String>)
    ensures
        match r {
            Ok((v, q)) => sleb(d@, p as int) == Ok::<(i64, int), Seq<char>>((v, q as int)) && p < q <= d@.len(),
            Err(m) => sleb(d@, p as int) == Err::<(i64, int), Seq<char>>(m@),
        },
{
    let mut at: usize = p;
    let mut v: u64 = 0;
    let mut shift: u64 = 0;
    let ghost mut true_shift: int = 0;
    loop
        invariant
            p <= at,
            shift < 64 ==> true_shift == shift,
            shift >= 64 ==> true_shift >= 64,
            shift <= 70,
            sleb_from(d@, at as int, true_shift, v) == sleb_from(d@, p as int, 0, 0),
        decreases d@.len() - at,
    {
        if at >= d.len() {
            return Err(truncated());
        }
        let b: u8 = d[at];
        if shift < 64 {
            v = v | (((b & 0x7f) as u64) << shift);
            shift = shift + 7;
        }
        at = at + 1;
        if b & 0x80 == 0 {
            if shift < 64 && b & 0x40 != 0 {
                v = v | (0xffff_ffff_ffff_ffffu64 << shift);
            }
            return Ok((v as i64, at));
        }
        proof {
            true_shift = true_shift + 7;
        }
    }
}

/// Where the next zero byte from `p` on is, or the end.
pub open spec fn nul(d: Seq<u8>, p: int) -> int
    decreases d.len() - p,
{
    if p < 0 || p >= d.len() || d[p] == 0 {
        p
    } else {
        nul(d, p + 1)
    }
}

/// The text at `p` up to a zero byte, if there is one.
pub open spec fn text_at(d: Seq<u8>, p: int) -> Option<Seq<char>> {
    if p < 0 || p > d.len() || nul(d, p) >= d.len() {
        None
    } else {
        Some(text::decoded(d.subrange(p, nul(d, p))))
    }
}

/// The text at `p`, and where the next thing is: behind as many bytes as the text takes and
/// the zero byte. Anywhere past the end is as good as just past it.
pub open spec fn string(d: Seq<u8>, p: int) -> Result<(Seq<char>, int), Seq<char>> {
    match text_at(d, p) {
        None => Err("unterminated string"@),
        Some(s) => {
            let q = p + vstd::utf8::encode_utf8(s).len() + 1;
            Ok(
                (
                    s,
                    if q > d.len() {
                        (d.len() + 1) as int
                    } else {
                        q
                    },
                ),
            )
        },
    }
}

fn find_text(d: &[u8], p: u64) -> (r: Option<String>)
    ensures
        match r {
            Some(s) => text_at(d@, p as int) == Some(s@),
            None => text_at(d@, p as int) is None,
        },
{
    if p > d.len() as u64 {
        return None;
    }
    let at: usize = p as usize;
    let mut i: usize = at;
    while i < d.len() && d[i] != 0
        invariant
            at <= i <= d@.len(),
            nul(d@, at as int) == nul(d@, i as int),
        decreases d@.len() - i,
    {
        i += 1;
    }
    if i >= d.len() {
        return None;
    }
    Some(text::decode(slice_subrange(d, at, i)))
}

fn read_string(d: &[u8], p: usize) -> (r: Result<(String, usize), String>)
    requires
        d@.len() < usize::MAX,
    ensures
        match r {
            Ok((s, q)) => string(d@, p as int) == Ok::<(Seq<char>, int), Seq<char>>((s@, q as int)) && p < q <= d@.len()
                + 1,
            Err(m) => string(d@, p as int) == Err::<(Seq<char>, int), Seq<char>>(m@),
        },
{
    match find_text(d, p as u64) {
        None => Err("unterminated string".to_owned()),
        Some(s) => {
            let n: usize = s.as_str().as_bytes().len();
            if n as u128 + p as u128 + 1 > d.len() as u128 {
                Ok((s, d.len() + 1))
            } else {
                Ok((s, p + n + 1))
            }
        },
    }
}

// ---- 64-bit arithmetic that wraps ----

/// What is left of `x` in 64 bits.
pub open spec fn wrapped(x: int) -> int {
    x % 0x1_0000_0000_0000_0000
}

/// What is left of `x` in 64 bits with a sign.
pub open spec fn wrapped_signed(x: int) -> int {
    (x + 0x8000_0000_0000_0000) % 0x1_0000_0000_0000_0000 - 0x8000_0000_0000_0000
}

fn wrap_add(a: u64, b: u64) -> (r: u64)
    ensures
        r == wrapped(a + b),
{
    ((a as u128 + b as u128) % 0x1_0000_0000_0000_0000) as u64
}

fn wrap_mul(a: u64, b: u8) -> (r: u64)
    ensures
        r == wrapped(a * b),
{
    assert(a * b <= 0xffff_ffff_ffff_ffff * 255) by (nonlinear_arith)
        requires
            a <= 0xffff_ffff_ffff_ffff,
            b <= 255,
    ;
    ((a as u128 * b as u128) % 0x1_0000_0000_0000_0000) as u64
}

fn wrap_signed(a: i64, b: i128) -> (r: i64)
    requires
        -0x1_0000_0000_0000_0000 < b < 0x1_0000_0000_0000_0000,
    ensures
        r == wrapped_signed(a + b),
{
    let x: i128 = a as i128 + b + 0x8000_0000_0000_0000;
    let up: i128 = x + 0x4_0000_0000_0000_0000;
    assert(up % 0x1_0000_0000_0000_0000 == x % 0x1_0000_0000_0000_0000);
    (up % 0x1_0000_0000_0000_0000 - 0x8000_0000_0000_0000) as i64
}

// ---- ELF ----

/// One section header, as much of it as a lookup needs.
pub struct Section {
    pub name: String,
    pub offset: u64,
    pub size: u64,
    /// `SHT_NOBITS`: the header is present but the contents are not in the file.
    pub nobits: bool,
}

/// A section header over mathematical values.
pub struct Part {
    pub name: Seq<char>,
    pub offset: int,
    pub size: int,
    pub nobits: bool,
}

impl View for Section {
    type V = Part;

    open spec fn view(&self) -> Part {
        Part { name: self.name@, offset: self.offset as int, size: self.size as int, nobits: self.nobits }
    }
}

pub struct Elf<'a> {
    pub data: &'a [u8],
    pub is64: bool,
    pub little: bool,
    pub sections: Vec<Section>,
}

/// An ELF file over mathematical values.
pub struct File {
    pub data: Seq<u8>,
    pub is64: bool,
    pub little: bool,
    pub parts: Seq<Part>,
}

pub open spec fn parts(v: Seq<Section>) -> Seq<Part> {
    Seq::new(v.len(), |i: int| v[i]@)
}

impl<'a> View for Elf<'a> {
    type V = File;

    open spec fn view(&self) -> File {
        File { data: self.data@, is64: self.is64, little: self.little, parts: parts(self.sections@) }
    }
}

/// A section header as it stands in the file: where its name is in the name table, its kind,
/// and where its contents are.
pub struct Header {
    pub name: int,
    pub kind: int,
    pub offset: int,
    pub size: int,
}

/// The section header at `h`.
pub open spec fn header(d: Seq<u8>, is64: bool, little: bool, h: int) -> Result<Header, Seq<char>> {
    let (o, s, n) = if is64 {
        (h + 0x18, h + 0x20, 8nat)
    } else {
        (h + 0x10, h + 0x14, 4nat)
    };
    match (uint(d, h, 4, little), uint(d, h + 4, 4, little), uint(d, o, n, little), uint(d, s, n, little)) {
        (Ok(a), Ok(b), Ok(c), Ok(e)) => Ok(Header { name: a.0, kind: b.0, offset: c.0, size: e.0 }),
        _ => Err("truncated"@),
    }
}

/// The first `n` section headers.
pub open spec fn headers(d: Seq<u8>, is64: bool, little: bool, at: int, each: int, n: nat) -> Result<
    Seq<Header>,
    Seq<char>,
>
    decreases n,
{
    if n == 0 {
        Ok(seq![])
    } else {
        match headers(d, is64, little, at, each, (n - 1) as nat) {
            Err(e) => Err(e),
            Ok(v) => match header(d, is64, little, at + (n - 1) * each) {
                Err(e) => Err(e),
                Ok(h) => Ok(v.push(h)),
            },
        }
    }
}

/// The first `n` sections, whose names stand in a table at `names`.
pub open spec fn named_parts(d: Seq<u8>, hs: Seq<Header>, names: int, n: nat) -> Result<Seq<Part>, Seq<char>>
    decreases n,
{
    if n == 0 {
        Ok(seq![])
    } else {
        match named_parts(d, hs, names, (n - 1) as nat) {
            Err(e) => Err(e),
            Ok(v) => {
                let h = hs[n - 1];
                if h.kind != 8 && h.offset + h.size > d.len() {
                    Err("a section extends past the end of the file"@)
                } else {
                    Ok(
                        v.push(
                            Part {
                                name: match text_at(d, names + h.name) {
                                    Some(s) => s,
                                    None => seq![],
                                },
                                offset: h.offset,
                                size: h.size,
                                nobits: h.kind == 8,
                            },
                        ),
                    )
                }
            },
        }
    }
}

/// Where the section headers are, how large each is, how many there are, and which of them is
/// the table of names.
pub open spec fn header_table(d: Seq<u8>, is64: bool, little: bool) -> Result<(int, int, int, int), Seq<char>> {
    let (a, n, b) = if is64 {
        (0x28int, 8nat, 0x3aint)
    } else {
        (0x20int, 4nat, 0x2eint)
    };
    match (uint(d, a, n, little), uint(d, b, 2, little), uint(d, b + 2, 2, little), uint(d, b + 4, 2, little)) {
        (Ok(w), Ok(x), Ok(y), Ok(z)) => Ok((w.0, x.0, y.0, z.0)),
        _ => Err("truncated"@),
    }
}

/// Whether `d` begins as an ELF file does.
pub open spec fn is_elf(d: Seq<u8>) -> bool {
    d.len() >= 0x34 && d[0] == 0x7f && d[1] == 0x45 && d[2] == 0x4c && d[3] == 0x46
}

/// The ELF file that `d` is, or why it is none.
pub open spec fn elf_of(d: Seq<u8>) -> Result<File, Seq<char>> {
    if !is_elf(d) {
        Err("not an ELF file"@)
    } else if d[4] != 1 && d[4] != 2 {
        Err("unknown ELF class "@ + text::decimal(d[4] as int))
    } else if d[5] != 1 && d[5] != 2 {
        Err("unknown ELF data encoding "@ + text::decimal(d[5] as int))
    } else {
        let is64 = d[4] == 2;
        let little = d[5] == 1;
        match header_table(d, is64, little) {
            Err(e) => Err(e),
            Ok((at, each, n, names)) => match headers(d, is64, little, at, each, n as nat) {
                Err(e) => Err(e),
                Ok(hs) => if names >= hs.len() {
                    Err("section name table index out of range"@)
                } else {
                    match named_parts(d, hs, hs[names].offset, hs.len()) {
                        Err(e) => Err(e),
                        Ok(parts) => Ok(File { data: d, is64, little, parts }),
                    }
                },
            },
        }
    }
}

/// The first section from `i` on that is called `name` and has contents.
pub open spec fn part_from(v: Seq<Part>, name: Seq<char>, i: int) -> Option<Part>
    decreases v.len() - i,
{
    if i < 0 || i >= v.len() {
        None
    } else if v[i].name == name && !v[i].nobits {
        Some(v[i])
    } else {
        part_from(v, name, i + 1)
    }
}

/// The contents of the section called `name`.
pub open spec fn contents(f: File, name: Seq<char>) -> Option<Seq<u8>> {
    match part_from(f.parts, name, 0) {
        Some(p) => Some(f.data.subrange(p.offset, p.offset + p.size)),
        None => None,
    }
}

/// What holds of every ELF file that was parsed: contents lie inside it.
pub open spec fn elf_sound(f: File) -> bool {
    forall|i: int|
        0 <= i < f.parts.len() && !(#[trigger] f.parts[i]).nobits ==> 0 <= f.parts[i].offset && 0 <= f.parts[i].size
            && f.parts[i].offset + f.parts[i].size <= f.data.len()
}

struct RawHeader {
    name: u64,
    kind: u64,
    offset: u64,
    size: u64,
}

spec fn raw_view(h: RawHeader) -> Header {
    Header { name: h.name as int, kind: h.kind as int, offset: h.offset as int, size: h.size as int }
}

spec fn raw_views(v: Seq<RawHeader>) -> Seq<Header> {
    Seq::new(v.len(), |i: int| raw_view(v[i]))
}

fn read_at(d: &[u8], p: u128, n: usize, little: bool) -> (r: Result<u64, String>)
    requires
        n <= 8,
    ensures
        match r {
            Ok(v) => uint(d@, p as int, n as nat, little) == Ok::<(int, int), Seq<char>>((v as int, p + n)) && v < p256(
                n as nat,
            ),
            Err(m) => uint(d@, p as int, n as nat, little) is Err && m@ == "truncated"@,
        },
{
    if p > d.len() as u128 {
        return Err(truncated());
    }
    match read_uint(d, p as usize, n, little) {
        Ok((v, _)) => Ok(v),
        Err(m) => Err(m),
    }
}

fn read_header(d: &[u8], is64: bool, little: bool, h: u128) -> (r: Result<RawHeader, String>)
    requires
        h <= 0x2_0000_0000_0000_0000,
    ensures
        match r {
            Ok(x) => header(d@, is64, little, h as int) == Ok::<Header, Seq<char>>(raw_view(x)),
            Err(m) => header(d@, is64, little, h as int) == Err::<Header, Seq<char>>(m@),
        },
{
    let name: u64 = match read_at(d, h, 4, little) {
        Ok(v) => v,
        Err(m) => return Err(m),
    };
    let kind: u64 = match read_at(d, h + 4, 4, little) {
        Ok(v) => v,
        Err(m) => return Err(m),
    };
    let (o, s, n): (u128, u128, usize) = if is64 {
        (h + 0x18, h + 0x20, 8)
    } else {
        (h + 0x10, h + 0x14, 4)
    };
    let offset: u64 = match read_at(d, o, n, little) {
        Ok(v) => v,
        Err(m) => return Err(m),
    };
    let size: u64 = match read_at(d, s, n, little) {
        Ok(v) => v,
        Err(m) => return Err(m),
    };
    Ok(RawHeader { name, kind, offset, size })
}

proof fn headers_fail(d: Seq<u8>, is64: bool, little: bool, at: int, each: int, k: nat, n: nat)
    requires
        k <= n,
        headers(d, is64, little, at, each, k) is Err,
    ensures
        headers(d, is64, little, at, each, n) == headers(d, is64, little, at, each, k),
    decreases n,
{
    if k < n {
        headers_fail(d, is64, little, at, each, k, (n - 1) as nat);
    }
}

proof fn named_parts_fail(d: Seq<u8>, hs: Seq<Header>, names: int, k: nat, n: nat)
    requires
        k <= n,
        named_parts(d, hs, names, k) is Err,
    ensures
        named_parts(d, hs, names, n) == named_parts(d, hs, names, k),
    decreases n,
{
    if k < n {
        named_parts_fail(d, hs, names, k, (n - 1) as nat);
    }
}

fn read_headers(d: &[u8], is64: bool, little: bool, at: u64, each: u64, n: u64) -> (r: Result<Vec<RawHeader>, String>)
    requires
        each <= 0xFFFF,
        n <= 0xFFFF,
    ensures
        match r {
            Ok(v) => headers(d@, is64, little, at as int, each as int, n as nat) == Ok::<Seq<Header>, Seq<char>>(
                raw_views(v@),
            ) && v@.len() == n,
            Err(m) => headers(d@, is64, little, at as int, each as int, n as nat) == Err::<Seq<Header>, Seq<char>>(m@),
        },
{
    let mut raw: Vec<RawHeader> = Vec::new();
    let mut i: u64 = 0;
    assert(raw_views(raw@) =~= seq![]);
    while i < n
        invariant
            each <= 0xFFFF,
            i <= n <= 0xFFFF,
            raw@.len() == i,
            headers(d@, is64, little, at as int, each as int, i as nat) == Ok::<Seq<Header>, Seq<char>>(
                raw_views(raw@),
            ),
        decreases n - i,
    {
        assert(0 <= i * each <= 0xFFFF * 0xFFFF) by (nonlinear_arith)
            requires
                i <= 0xFFFF,
                each <= 0xFFFF,
        ;
        let h: u128 = at as u128 + (i * each) as u128;
        match read_header(d, is64, little, h) {
            Ok(x) => {
                let ghost before = raw_views(raw@);
                let ghost v = raw_view(x);
                raw.push(x);
                assert(raw_views(raw@) =~= before.push(v));
            },
            Err(m) => {
                proof {
                    headers_fail(d@, is64, little, at as int, each as int, (i + 1) as nat, n as nat);
                }
                return Err(m);
            },
        }
        i += 1;
    }
    Ok(raw)
}

impl<'a> Elf<'a> {
    pub fn parse(data: &'a [u8]) -> (r: Result<Elf<'a>, String>)
        ensures
            match r {
                Ok(e) => elf_of(data@) == Ok::<File, Seq<char>>(e@) && elf_sound(e@),
                Err(m) => elf_of(data@) == Err::<File, Seq<char>>(m@),
            },
    {
        let ghost d = data@;
        if data.len() < 0x34 || data[0] != 0x7f || data[1] != 0x45 || data[2] != 0x4c || data[3] != 0x46 {
            return Err("not an ELF file".to_owned());
        }
        if data[4] != 1 && data[4] != 2 {
            let mut m = "unknown ELF class ".to_owned();
            m.append(text::int_text(data[4] as i128).as_str());
            return Err(m);
        }
        if data[5] != 1 && data[5] != 2 {
            let mut m = "unknown ELF data encoding ".to_owned();
            m.append(text::int_text(data[5] as i128).as_str());
            return Err(m);
        }
        let is64 = data[4] == 2;
        let little = data[5] == 1;
        let (a, n, b): (u128, usize, u128) = if is64 {
            (0x28, 8, 0x3a)
        } else {
            (0x20, 4, 0x2e)
        };
        let at: u64 = match read_at(data, a, n, little) {
            Ok(v) => v,
            Err(m) => return Err(m),
        };
        let each: u64 = match read_at(data, b, 2, little) {
            Ok(v) => v,
            Err(m) => return Err(m),
        };
        let count: u64 = match read_at(data, b + 2, 2, little) {
            Ok(v) => v,
            Err(m) => return Err(m),
        };
        let names: u64 = match read_at(data, b + 4, 2, little) {
            Ok(v) => v,
            Err(m) => return Err(m),
        };
        proof {
            p256_values();
        }
        let raw = match read_headers(data, is64, little, at, each, count) {
            Ok(v) => v,
            Err(m) => return Err(m),
        };
        let ghost hs = raw_views(raw@);
        if names >= raw.len() as u64 {
            return Err("section name table index out of range".to_owned());
        }
        assert(hs[names as int] == raw_view(raw@[names as int]));
        let table: u64 = raw[names as usize].offset;
        let mut sections: Vec<Section> = Vec::new();
        let mut i: usize = 0;
        assert(parts(sections@) =~= seq![]);
        while i < raw.len()
            invariant
                d == data@,
                hs == raw_views(raw@),
                i <= raw@.len(),
                elf_of(d) == (match named_parts(d, hs, table as int, hs.len()) {
                    Err(e) => Err::<File, Seq<char>>(e),
                    Ok(p) => Ok(File { data: d, is64, little, parts: p }),
                }),
                named_parts(d, hs, table as int, i as nat) == Ok::<Seq<Part>, Seq<char>>(parts(sections@)),
                elf_sound(File { data: d, is64, little, parts: parts(sections@) }),
            decreases raw@.len() - i,
        {
            assert(hs[i as int] == raw_view(raw@[i as int]));
            let h = &raw[i];
            let nobits = h.kind == 8;
            if !nobits && h.offset as u128 + h.size as u128 > data.len() as u128 {
                proof {
                    named_parts_fail(d, hs, table as int, (i + 1) as nat, hs.len());
                }
                return Err("a section extends past the end of the file".to_owned());
            }
            let whole: u128 = table as u128 + h.name as u128;
            let name = if whole > data.len() as u128 {
                String::new()
            } else {
                match find_text(data, whole as u64) {
                    Some(s) => s,
                    None => String::new(),
                }
            };
            let ghost before = parts(sections@);
            let s = Section { name, offset: h.offset, size: h.size, nobits };
            let ghost v = s@;
            sections.push(s);
            assert(parts(sections@) =~= before.push(v));
            proof {
                let f = File { data: d, is64, little, parts: parts(sections@) };
                let g = File { data: d, is64, little, parts: before };
                assert forall|k: int| 0 <= k < f.parts.len() && !(#[trigger] f.parts[k]).nobits implies 0
                    <= f.parts[k].offset && 0 <= f.parts[k].size && f.parts[k].offset + f.parts[k].size <= d.len() by {
                    if k < before.len() {
                        assert(f.parts[k] == g.parts[k]);
                    }
                }
            }
            i += 1;
        }
        Ok(Elf { data, is64, little, sections })
    }

    /// A section's contents, if it has any in this file.
    pub fn section(&self, name: &str) -> (r: Option<&'a [u8]>)
        requires
            elf_sound(self@),
        ensures
            match r {
                Some(s) => contents(self@, name@) == Some(s@),
                None => contents(self@, name@) is None,
            },
    {
        let ghost v = parts(self.sections@);
        let mut i: usize = 0;
        while i < self.sections.len()
            invariant
                elf_sound(self@),
                v == parts(self.sections@),
                i <= self.sections@.len(),
                part_from(v, name@, 0) == part_from(v, name@, i as int),
            decreases self.sections@.len() - i,
        {
            assert(v[i as int] == self.sections@[i as int]@);
            let s = &self.sections[i];
            if text::same(s.name.as_str(), name) && !s.nobits {
                assert(!self@.parts[i as int].nobits);
                let ghost n = self.data.len();
                let at: usize = s.offset as usize;
                return Some(slice_subrange(self.data, at, at + s.size as usize));
            }
            i += 1;
        }
        None
    }
}

// ---- the line-number program: its tables of names ----

/// The string sections a version 5 header's forms may point into.
pub struct Sections<'a> {
    pub line_str: &'a [u8],
    pub str: &'a [u8],
}

/// The string sections over mathematical values.
pub struct Strs {
    pub line_str: Seq<u8>,
    pub plain: Seq<u8>,
}

impl<'a> View for Sections<'a> {
    type V = Strs;

    open spec fn view(&self) -> Strs {
        Strs { line_str: self.line_str@, plain: self.str@ }
    }
}

/// What a field of a table entry holds, as far as it matters.
pub enum Datum {
    Text(Seq<char>),
    Number(int),
    Other,
}

/// A text, or the empty one where there is none.
pub open spec fn text_or_empty(s: Option<Seq<char>>) -> Seq<char> {
    match s {
        Some(x) => x,
        None => seq![],
    }
}

/// How many bytes an offset takes.
pub open spec fn offset_size(wide: bool) -> nat {
    if wide {
        8
    } else {
        4
    }
}

/// The value of the given form at `p`.
pub open spec fn form_value(d: Seq<u8>, p: int, form: u64, strs: Strs, wide: bool, little: bool) -> Result<
    (Datum, int),
    Seq<char>,
> {
    if form == 0x08 {
        match string(d, p) {
            Ok((s, q)) => Ok((Datum::Text(s), q)),
            Err(e) => Err(e),
        }
    } else if form == 0x1f || form == 0x0e {
        match uint(d, p, offset_size(wide), little) {
            Ok((at, q)) => Ok(
                (
                    Datum::Text(
                        text_or_empty(
                            text_at(
                                if form == 0x1f {
                                    strs.line_str
                                } else {
                                    strs.plain
                                },
                                at,
                            ),
                        ),
                    ),
                    q,
                ),
            ),
            Err(e) => Err(e),
        }
    } else if form == 0x0b || form == 0x05 || form == 0x06 || form == 0x07 {
        match uint(
            d,
            p,
            if form == 0x0b {
                1
            } else if form == 0x05 {
                2
            } else if form == 0x06 {
                4
            } else {
                8
            },
            little,
        ) {
            Ok((v, q)) => Ok((Datum::Number(v), q)),
            Err(e) => Err(e),
        }
    } else if form == 0x0f {
        match uleb(d, p) {
            Ok((v, q)) => Ok((Datum::Number(v as int), q)),
            Err(e) => Err(e),
        }
    } else if form == 0x1e {
        if p + 16 > d.len() {
            Err("truncated"@)
        } else {
            Ok((Datum::Other, p + 16))
        }
    } else if form == 0x09 {
        match uleb(d, p) {
            Ok((n, q)) => if q + n > d.len() {
                Err("truncated"@)
            } else {
                Ok((Datum::Other, q + n))
            },
            Err(e) => Err(e),
        }
    } else {
        Err("unsupported form 0x"@ + text::digits(form as nat, 16) + " in a file table"@)
    }
}

/// What a table entry says: a path, and the place of its directory.
pub struct Row {
    pub path: Seq<char>,
    pub dir: int,
}

/// `n` pairs of what a field is and what form it has, behind those in `got`.
pub open spec fn formats(d: Seq<u8>, p: int, n: nat, got: Seq<(u64, u64)>) -> Result<
    (Seq<(u64, u64)>, int),
    Seq<char>,
>
    decreases n,
{
    if n == 0 {
        Ok((got, p))
    } else {
        match uleb(d, p) {
            Err(e) => Err(e),
            Ok((a, q)) => match uleb(d, q) {
                Err(e) => Err(e),
                Ok((b, r)) => formats(d, r, (n - 1) as nat, got.push((a, b))),
            },
        }
    }
}

/// One table entry, its fields from `i` on.
pub open spec fn fields(
    d: Seq<u8>,
    p: int,
    fs: Seq<(u64, u64)>,
    i: int,
    row: Row,
    strs: Strs,
    wide: bool,
    little: bool,
) -> Result<(Row, int), Seq<char>>
    decreases fs.len() - i,
{
    if i < 0 || i >= fs.len() {
        Ok((row, p))
    } else {
        match form_value(d, p, fs[i].1, strs, wide, little) {
            Err(e) => Err(e),
            Ok((v, q)) => fields(
                d,
                q,
                fs,
                i + 1,
                match v {
                    Datum::Text(s) => if fs[i].0 == 1 {
                        Row { path: s, ..row }
                    } else {
                        row
                    },
                    Datum::Number(n) => if fs[i].0 == 2 {
                        Row { dir: n, ..row }
                    } else {
                        row
                    },
                    Datum::Other => row,
                },
                strs,
                wide,
                little,
            ),
        }
    }
}

/// `n` table entries, behind those in `got`.
pub open spec fn rows(
    d: Seq<u8>,
    p: int,
    n: nat,
    fs: Seq<(u64, u64)>,
    got: Seq<Row>,
    strs: Strs,
    wide: bool,
    little: bool,
) -> Result<(Seq<Row>, int), Seq<char>>
    decreases n,
{
    if n == 0 {
        Ok((got, p))
    } else {
        match fields(d, p, fs, 0, Row { path: seq![], dir: 0 }, strs, wide, little) {
            Err(e) => Err(e),
            Ok((r, q)) => rows(d, q, (n - 1) as nat, fs, got.push(r), strs, wide, little),
        }
    }
}

/// A version 5 directory or file table: a format description, then entries.
pub open spec fn entries(d: Seq<u8>, p: int, strs: Strs, wide: bool, little: bool) -> Result<
    (Seq<Row>, int),
    Seq<char>,
> {
    match uint(d, p, 1, little) {
        Err(e) => Err(e),
        Ok((n, q)) => match formats(d, q, n as nat, seq![]) {
            Err(e) => Err(e),
            Ok((fs, r)) => match uleb(d, r) {
                Err(e) => Err(e),
                Ok((count, s)) => rows(d, s, count as nat, fs, seq![], strs, wide, little),
            },
        },
    }
}

/// A path in its directory.
pub open spec fn joined(dir: Seq<char>, name: Seq<char>) -> Seq<char> {
    if dir.len() == 0 || (name.len() > 0 && name[0] == '/') {
        name
    } else {
        dir + "/"@ + name
    }
}

/// The directory at a place, or the empty one where there is none.
pub open spec fn dir_at(dirs: Seq<Seq<char>>, i: int) -> Seq<char> {
    if 0 <= i < dirs.len() {
        dirs[i]
    } else {
        seq![]
    }
}

/// A string ends behind where it begins.
pub proof fn string_advances(d: Seq<u8>, p: int)
    requires
        string(d, p) is Ok,
    ensures
        p < string(d, p)->Ok_0.1 <= d.len() + 1,
{
}

/// The directories of a table before version 5, behind those in `got`: texts up to an empty one.
pub open spec fn old_dirs(d: Seq<u8>, p: int, got: Seq<Seq<char>>) -> Result<(Seq<Seq<char>>, int), Seq<char>>
    decreases d.len() + 1 - p,
{
    match string(d, p) {
        Err(e) => Err(e),
        Ok((s, q)) => if s.len() == 0 {
            Ok((got, q))
        } else {
            proof {
                string_advances(d, p);
            }
            old_dirs(d, q, got.push(s))
        },
    }
}

/// One entry of a file table before version 5 behind its name: the place of its directory, and
/// where the next entry is.
pub open spec fn old_entry(d: Seq<u8>, p: int) -> Result<(u64, int), Seq<char>> {
    match uleb(d, p) {
        Err(e) => Err(e),
        Ok((dir, q)) => match uleb(d, q) {
            Err(e) => Err(e),
            Ok((_, r)) => match uleb(d, r) {
                Err(e) => Err(e),
                Ok((_, s)) => Ok((dir, s)),
            },
        },
    }
}

/// A number of variable length takes at least a byte.
pub proof fn uleb_advances(d: Seq<u8>, p: int, shift: int, v: u64)
    requires
        uleb_from(d, p, shift, v) is Ok,
    ensures
        p < uleb_from(d, p, shift, v)->Ok_0.1 <= d.len(),
    decreases d.len() - p,
{
    let b = d[p];
    let w = if shift < 64 {
        v | (((b & 0x7f) as u64) << (shift as u64))
    } else {
        v
    };
    if b & 0x80 != 0 {
        uleb_advances(d, p + 1, shift + 7, w);
    }
}

/// An entry of a table takes at least a byte.
pub proof fn old_entry_advances(d: Seq<u8>, p: int)
    requires
        old_entry(d, p) is Ok,
    ensures
        p < old_entry(d, p)->Ok_0.1 <= d.len(),
{
    uleb_advances(d, p, 0, 0);
    let q = uleb(d, p)->Ok_0.1;
    uleb_advances(d, q, 0, 0);
    let r = uleb(d, q)->Ok_0.1;
    uleb_advances(d, r, 0, 0);
}

/// The files of a table before version 5, behind those in `got`.
pub open spec fn old_files(d: Seq<u8>, p: int, dirs: Seq<Seq<char>>, got: Seq<Seq<char>>) -> Result<
    (Seq<Seq<char>>, int),
    Seq<char>,
>
    decreases d.len() + 1 - p,
{
    match string(d, p) {
        Err(e) => Err(e),
        Ok((name, q)) => if name.len() == 0 {
            Ok((got, q))
        } else {
            match old_entry(d, q) {
                Err(e) => Err(e),
                Ok((dir, r)) => {
                    proof {
                        string_advances(d, p);
                        old_entry_advances(d, q);
                    }
                    old_files(d, r, dirs, got.push(joined(dir_at(dirs, dir as int), name)))
                },
            }
        },
    }
}

/// The names of a unit's files. Version 5 numbers them from 0; earlier versions from 1, with 0
/// unused.
pub open spec fn file_names(d: Seq<u8>, p: int, version: int, strs: Strs, wide: bool, little: bool) -> Result<
    Seq<Seq<char>>,
    Seq<char>,
> {
    if version >= 5 {
        match entries(d, p, strs, wide, little) {
            Err(e) => Err(e),
            Ok((dirs, q)) => match entries(d, q, strs, wide, little) {
                Err(e) => Err(e),
                Ok((files, _)) => {
                    let names = Seq::new(dirs.len(), |i: int| dirs[i].path);
                    Ok(Seq::new(files.len(), |i: int| joined(dir_at(names, files[i].dir), files[i].path)))
                },
            },
        }
    } else {
        match old_dirs(d, p, seq![seq![]]) {
            Err(e) => Err(e),
            Ok((dirs, q)) => match old_files(d, q, dirs, seq!["<file 0>"@]) {
                Err(e) => Err(e),
                Ok((names, _)) => Ok(names),
            },
        }
    }
}

enum Value {
    Str(String),
    Number(u64),
    Other,
}

spec fn datum(v: Value) -> Datum {
    match v {
        Value::Str(s) => Datum::Text(s@),
        Value::Number(n) => Datum::Number(n as int),
        Value::Other => Datum::Other,
    }
}

fn find_or_empty(d: &[u8], p: u64) -> (r: String)
    ensures
        r@ == text_or_empty(text_at(d@, p as int)),
{
    match find_text(d, p) {
        Some(s) => s,
        None => String::new(),
    }
}

fn read_form(d: &[u8], p: usize, form: u64, strs: &Sections<'_>, wide: bool, little: bool) -> (r: Result<
    (Value, usize),
    String,
>)
    requires
        d@.len() < usize::MAX,
    ensures
        match r {
            Ok((v, q)) => form_value(d@, p as int, form, strs@, wide, little) == Ok::<(Datum, int), Seq<char>>(
                (datum(v), q as int),
            ),
            Err(m) => form_value(d@, p as int, form, strs@, wide, little) == Err::<(Datum, int), Seq<char>>(m@),
        },
{
    if form == 0x08 {
        match read_string(d, p) {
            Ok((s, q)) => Ok((Value::Str(s), q)),
            Err(m) => Err(m),
        }
    } else if form == 0x1f || form == 0x0e {
        let n: usize = if wide {
            8
        } else {
            4
        };
        match read_uint(d, p, n, little) {
            Ok((at, q)) => {
                proof {
                    p256_values();
                }
                let s = if form == 0x1f {
                    find_or_empty(strs.line_str, at)
                } else {
                    find_or_empty(strs.str, at)
                };
                Ok((Value::Str(s), q))
            },
            Err(m) => Err(m),
        }
    } else if form == 0x0b || form == 0x05 || form == 0x06 || form == 0x07 {
        let n: usize = if form == 0x0b {
            1
        } else if form == 0x05 {
            2
        } else if form == 0x06 {
            4
        } else {
            8
        };
        match read_uint(d, p, n, little) {
            Ok((v, q)) => Ok((Value::Number(v), q)),
            Err(m) => Err(m),
        }
    } else if form == 0x0f {
        match read_uleb(d, p) {
            Ok((v, q)) => Ok((Value::Number(v), q)),
            Err(m) => Err(m),
        }
    } else if form == 0x1e {
        if p > d.len() || d.len() - p < 16 {
            Err(truncated())
        } else {
            Ok((Value::Other, p + 16))
        }
    } else if form == 0x09 {
        match read_uleb(d, p) {
            Ok((n, q)) => {
                if n > (d.len() - q) as u64 {
                    Err(truncated())
                } else {
                    Ok((Value::Other, q + n as usize))
                }
            },
            Err(m) => Err(m),
        }
    } else {
        let mut m = "unsupported form 0x".to_owned();
        m.append(text::radix_text(form as u128, 16).as_str());
        m.append(" in a file table");
        Err(m)
    }
}

struct Entry {
    path: String,
    dir: u64,
}

spec fn row(e: Entry) -> Row {
    Row { path: e.path@, dir: e.dir as int }
}

spec fn row_views(v: Seq<Entry>) -> Seq<Row> {
    Seq::new(v.len(), |i: int| row(v[i]))
}

fn read_fields(d: &[u8], p: usize, fs: &Vec<(u64, u64)>, strs: &Sections<'_>, wide: bool, little: bool) -> (r: Result<
    (Entry, usize),
    String,
>)
    requires
        d@.len() < usize::MAX,
    ensures
        match r {
            Ok((e, q)) => fields(d@, p as int, fs@, 0, Row { path: seq![], dir: 0 }, strs@, wide, little) == Ok::<
                (Row, int),
                Seq<char>,
            >((row(e), q as int)),
            Err(m) => fields(d@, p as int, fs@, 0, Row { path: seq![], dir: 0 }, strs@, wide, little) == Err::<
                (Row, int),
                Seq<char>,
            >(m@),
        },
{
    let ghost want = fields(d@, p as int, fs@, 0, Row { path: seq![], dir: 0 }, strs@, wide, little);
    let mut e = Entry { path: String::new(), dir: 0 };
    let mut at: usize = p;
    let mut i: usize = 0;
    assert(row(e).path =~= seq![]);
    while i < fs.len()
        invariant
            d@.len() < usize::MAX,
            i <= fs@.len(),
            fields(d@, at as int, fs@, i as int, row(e), strs@, wide, little) == want,
            want == fields(d@, p as int, fs@, 0, Row { path: seq![], dir: 0 }, strs@, wide, little),
        decreases fs@.len() - i,
    {
        let (kind, form) = fs[i];
        match read_form(d, at, form, strs, wide, little) {
            Ok((v, q)) => {
                match v {
                    Value::Str(s) => {
                        if kind == 1 {
                            e.path = s;
                        }
                    },
                    Value::Number(n) => {
                        if kind == 2 {
                            e.dir = n;
                        }
                    },
                    Value::Other => {},
                }
                at = q;
            },
            Err(m) => return Err(m),
        }
        i += 1;
    }
    Ok((e, at))
}

fn read_entries(d: &[u8], p: usize, strs: &Sections<'_>, wide: bool, little: bool) -> (r: Result<
    (Vec<Entry>, usize),
    String,
>)
    requires
        d@.len() < usize::MAX,
    ensures
        match r {
            Ok((v, q)) => entries(d@, p as int, strs@, wide, little) == Ok::<(Seq<Row>, int), Seq<char>>(
                (row_views(v@), q as int),
            ),
            Err(m) => entries(d@, p as int, strs@, wide, little) == Err::<(Seq<Row>, int), Seq<char>>(m@),
        },
{
    let ghost whole = entries(d@, p as int, strs@, wide, little);
    let (n, first) = match read_uint(d, p, 1, little) {
        Ok(x) => x,
        Err(m) => return Err(m),
    };
    let mut fs: Vec<(u64, u64)> = Vec::new();
    let mut at: usize = first;
    let mut left: u64 = n;
    assert(fs@ =~= seq![]);
    while left > 0
        invariant
            formats(d@, at as int, left as nat, fs@) == formats(d@, first as int, n as nat, seq![]),
            whole == (match formats(d@, first as int, n as nat, seq![]) {
                Err(e) => Err::<(Seq<Row>, int), Seq<char>>(e),
                Ok((fs, r)) => match uleb(d@, r) {
                    Err(e) => Err(e),
                    Ok((count, s)) => rows(d@, s, count as nat, fs, seq![], strs@, wide, little),
                },
            }),
            whole == entries(d@, p as int, strs@, wide, little),
        decreases left,
    {
        let (a, q) = match read_uleb(d, at) {
            Ok(x) => x,
            Err(m) => return Err(m),
        };
        let (b, r) = match read_uleb(d, q) {
            Ok(x) => x,
            Err(m) => return Err(m),
        };
        fs.push((a, b));
        at = r;
        left -= 1;
    }
    let (count, first) = match read_uleb(d, at) {
        Ok(x) => x,
        Err(m) => return Err(m),
    };
    let mut out: Vec<Entry> = Vec::new();
    let mut at: usize = first;
    let mut left: u64 = count;
    assert(row_views(out@) =~= seq![]);
    while left > 0
        invariant
            d@.len() < usize::MAX,
            rows(d@, at as int, left as nat, fs@, row_views(out@), strs@, wide, little) == whole,
            whole == entries(d@, p as int, strs@, wide, little),
        decreases left,
    {
        match read_fields(d, at, &fs, strs, wide, little) {
            Ok((e, q)) => {
                let ghost before = row_views(out@);
                let ghost v = row(e);
                out.push(e);
                assert(row_views(out@) =~= before.push(v));
                at = q;
            },
            Err(m) => return Err(m),
        }
        left -= 1;
    }
    Ok((out, at))
}

fn join(dir: &str, name: &str) -> (r: String)
    ensures
        r@ == joined(dir@, name@),
{
    let c = text::chars(name);
    if dir.is_empty() || (c.len() > 0 && c[0] == '/') {
        name.to_owned()
    } else {
        let mut r = dir.to_owned();
        r.append("/");
        r.append(name);
        r
    }
}

fn push_name(v: &mut Vec<String>, s: String)
    ensures
        text::views(final(v)@) == text::views(old(v)@).push(s@),
{
    let ghost before = text::views(v@);
    v.push(s);
    assert(text::views(v@) =~= before.push(s@));
}

fn old_names(d: &[u8], p: usize) -> (r: Result<Vec<String>, String>)
    requires
        d@.len() < usize::MAX,
    ensures
        match r {
            Ok(v) => (match old_dirs(d@, p as int, seq![seq![]]) {
                Err(e) => Err::<Seq<Seq<char>>, Seq<char>>(e),
                Ok((dirs, q)) => match old_files(d@, q, dirs, seq!["<file 0>"@]) {
                    Err(e) => Err(e),
                    Ok((names, _)) => Ok(names),
                },
            }) == Ok::<Seq<Seq<char>>, Seq<char>>(text::views(v@)),
            Err(m) => (match old_dirs(d@, p as int, seq![seq![]]) {
                Err(e) => Err::<Seq<Seq<char>>, Seq<char>>(e),
                Ok((dirs, q)) => match old_files(d@, q, dirs, seq!["<file 0>"@]) {
                    Err(e) => Err(e),
                    Ok((names, _)) => Ok(names),
                },
            }) == Err::<Seq<Seq<char>>, Seq<char>>(m@),
        },
{
    let mut dirs: Vec<String> = Vec::new();
    dirs.push(String::new());
    let mut at: usize = p;
    let ghost want = old_dirs(d@, p as int, seq![seq![]]);
    assert(text::views(dirs@)[0] =~= seq![]);
    assert(text::views(dirs@) =~= seq![seq![]]);
    loop
        invariant_except_break
            d@.len() < usize::MAX,
            old_dirs(d@, at as int, text::views(dirs@)) == want,
            want == old_dirs(d@, p as int, seq![seq![]]),
        ensures
            want == Ok::<(Seq<Seq<char>>, int), Seq<char>>((text::views(dirs@), at as int)),
        decreases d@.len() + 1 - at,
    {
        match read_string(d, at) {
            Ok((s, q)) => {
                let last = s.as_str().is_empty();
                at = q;
                if last {
                    break;
                }
                push_name(&mut dirs, s);
            },
            Err(m) => return Err(m),
        }
    }
    let ghost ds = text::views(dirs@);
    let mut names: Vec<String> = Vec::new();
    names.push("<file 0>".to_owned());
    assert(text::views(names@) =~= seq!["<file 0>"@]);
    let ghost from = at as int;
    let ghost whole = old_files(d@, from, ds, seq!["<file 0>"@]);
    loop
        invariant_except_break
            d@.len() < usize::MAX,
            ds == text::views(dirs@),
            want == old_dirs(d@, p as int, seq![seq![]]),
            want == Ok::<(Seq<Seq<char>>, int), Seq<char>>((ds, from)),
            whole == old_files(d@, from, ds, seq!["<file 0>"@]),
            old_files(d@, at as int, ds, text::views(names@)) == whole,
        ensures
            whole is Ok && whole->Ok_0.0 == text::views(names@),
        decreases d@.len() + 1 - at,
    {
        let (name, q) = match read_string(d, at) {
            Ok(x) => x,
            Err(m) => return Err(m),
        };
        if name.as_str().is_empty() {
            break;
        }
        let (dir, r1) = match read_uleb(d, q) {
            Ok(x) => x,
            Err(m) => return Err(m),
        };
        let (_mtime, r2) = match read_uleb(d, r1) {
            Ok(x) => x,
            Err(m) => return Err(m),
        };
        let (_size, r3) = match read_uleb(d, r2) {
            Ok(x) => x,
            Err(m) => return Err(m),
        };
        let whole_name = if dir < dirs.len() as u64 {
            assert(ds[dir as int] == dirs@[dir as int]@);
            join(dirs[dir as usize].as_str(), name.as_str())
        } else {
            name
        };
        assert(whole_name@ == joined(dir_at(ds, dir as int), name@));
        push_name(&mut names, whole_name);
        at = r3;
    }
    Ok(names)
}

fn read_names(d: &[u8], p: usize, version: u64, strs: &Sections<'_>, wide: bool, little: bool) -> (r: Result<
    Vec<String>,
    String,
>)
    requires
        d@.len() < usize::MAX,
    ensures
        match r {
            Ok(v) => file_names(d@, p as int, version as int, strs@, wide, little) == Ok::<Seq<Seq<char>>, Seq<char>>(
                text::views(v@),
            ),
            Err(m) => file_names(d@, p as int, version as int, strs@, wide, little) == Err::<
                Seq<Seq<char>>,
                Seq<char>,
            >(m@),
        },
{
    if version < 5 {
        return old_names(d, p);
    }
    let (dirs, q) = match read_entries(d, p, strs, wide, little) {
        Ok(x) => x,
        Err(m) => return Err(m),
    };
    let (files, _) = match read_entries(d, q, strs, wide, little) {
        Ok(x) => x,
        Err(m) => return Err(m),
    };
    let ghost dr = row_views(dirs@);
    let ghost fr = row_views(files@);
    let ghost names = Seq::new(dr.len(), |i: int| dr[i].path);
    let mut out: Vec<String> = Vec::new();
    let mut i: usize = 0;
    while i < files.len()
        invariant
            dr == row_views(dirs@),
            fr == row_views(files@),
            names == Seq::new(dr.len(), |i: int| dr[i].path),
            i <= files@.len(),
            out@.len() == i,
            forall|k: int| 0 <= k < i ==> (#[trigger] out@[k])@ == joined(dir_at(names, fr[k].dir), fr[k].path),
        decreases files@.len() - i,
    {
        let f = &files[i];
        assert(fr[i as int] == row(files@[i as int]));
        let name = if f.dir < dirs.len() as u64 {
            assert(names[f.dir as int] == dirs@[f.dir as int].path@);
            join(dirs[f.dir as usize].path.as_str(), f.path.as_str())
        } else {
            f.path.clone()
        };
        out.push(name);
        i += 1;
    }
    assert(text::views(out@) =~= Seq::new(fr.len(), |i: int| joined(dir_at(names, fr[i].dir), fr[i].path)));
    Ok(out)
}

// ---- the line-number program: its header ----

/// What the header of a unit says.
pub struct Head {
    pub end: int,
    pub version: int,
    pub wide: bool,
    pub addr_size: int,
    pub program: int,
    pub min_inst: int,
    pub line_base: i8,
    pub line_range: int,
    pub opcode_base: int,
    pub lengths: Seq<u8>,
    /// Where the tables of names are.
    pub tables: int,
}

/// A unit's length and where its contents are, and whether its offsets take eight bytes.
pub open spec fn unit_length(d: Seq<u8>, p: int, little: bool) -> Result<(int, int, bool), Seq<char>> {
    match uint(d, p, 4, little) {
        Err(e) => Err(e),
        Ok((n, q)) => if n == 0xffff_ffff {
            match uint(d, q, 8, little) {
                Err(e) => Err(e),
                Ok((m, r)) => Ok((m, r, true)),
            }
        } else if n >= 0xffff_fff0 {
            Err("reserved unit length 0x"@ + text::digits(n as nat, 16))
        } else {
            Ok((n, q, false))
        },
    }
}

/// The header's fields behind its length, which starts the bytes that `p` is at.
pub open spec fn head_fields(
    d: Seq<u8>,
    p: int,
    end: int,
    version: int,
    wide: bool,
    addr_size: int,
    program: int,
) -> Result<Head, Seq<char>> {
    // One more byte from version 4 on.
    let q = if version >= 4 {
        p + 3
    } else {
        p + 2
    };
    if q + 3 > d.len() {
        Err("truncated"@)
    } else if d[q + 1] == 0 {
        Err("line_range is zero"@)
    } else {
        let base = d[q + 2] as int;
        let n = if base > 1 {
            base - 1
        } else {
            0
        };
        if q + 3 + n > d.len() {
            Err("truncated"@)
        } else {
            Ok(
                Head {
                    end,
                    version,
                    wide,
                    addr_size,
                    program,
                    min_inst: d[p] as int,
                    line_base: d[q] as i8,
                    line_range: d[q + 1] as int,
                    opcode_base: base,
                    lengths: d.subrange(q + 3, q + 3 + n),
                    tables: q + 3 + n,
                },
            )
        }
    }
}

/// The header of the unit at `p`.
pub open spec fn head_of(d: Seq<u8>, p: int, little: bool, default_addr_size: int) -> Result<Head, Seq<char>> {
    match unit_length(d, p, little) {
        Err(e) => Err(e),
        Ok((len, q, wide)) => if q + len > d.len() {
            Err("unit runs past the end of the section"@)
        } else {
            match uint(d, q, 2, little) {
                Err(e) => Err(e),
                Ok((version, r)) => if !(2 <= version <= 5) {
                    Err("line table version "@ + text::decimal(version) + " is not supported"@)
                } else if version >= 5 && r + 2 > d.len() {
                    Err("truncated"@)
                } else {
                    let addr_size = if version >= 5 {
                        d[r] as int
                    } else {
                        default_addr_size
                    };
                    let s = if version >= 5 {
                        r + 2
                    } else {
                        r
                    };
                    match uint(d, s, offset_size(wide), little) {
                        Err(e) => Err(e),
                        Ok((n, t)) => if t + n > usize::MAX {
                            Err("header length overflows"@)
                        } else {
                            head_fields(d, t, q + len, version, wide, addr_size, t + n)
                        },
                    }
                },
            }
        },
    }
}

struct HeadRec {
    end: usize,
    version: u64,
    wide: bool,
    addr_size: u8,
    program: usize,
    min_inst: u8,
    line_base: i8,
    line_range: u8,
    opcode_base: u8,
    lengths: Vec<u8>,
    tables: usize,
}

spec fn head_view(h: HeadRec) -> Head {
    Head {
        end: h.end as int,
        version: h.version as int,
        wide: h.wide,
        addr_size: h.addr_size as int,
        program: h.program as int,
        min_inst: h.min_inst as int,
        line_base: h.line_base,
        line_range: h.line_range as int,
        opcode_base: h.opcode_base as int,
        lengths: h.lengths@,
        tables: h.tables as int,
    }
}

#[verifier::spinoff_prover]
#[verifier::rlimit(40)]
fn read_head(d: &[u8], p: usize, little: bool, default_addr_size: u8) -> (r: Result<HeadRec, String>)
    requires
        d@.len() < usize::MAX,
    ensures
        match r {
            Ok(h) => head_of(d@, p as int, little, default_addr_size as int) == Ok::<Head, Seq<char>>(head_view(h))
                && p < h.end <= d@.len() && h.line_range > 0,
            Err(m) => head_of(d@, p as int, little, default_addr_size as int) == Err::<Head, Seq<char>>(m@),
        },
{
    let ghost dl = d.len();
    proof {
        p256_values();
    }
    let (n, q1) = match read_uint(d, p, 4, little) {
        Ok(x) => x,
        Err(m) => return Err(m),
    };
    let (len, q, wide): (u64, usize, bool) = if n == 0xffff_ffff {
        match read_uint(d, q1, 8, little) {
            Ok((m, r)) => (m, r, true),
            Err(m) => return Err(m),
        }
    } else if n >= 0xffff_fff0 {
        let mut m = "reserved unit length 0x".to_owned();
        m.append(text::radix_text(n as u128, 16).as_str());
        return Err(m);
    } else {
        (n, q1, false)
    };
    assert(unit_length(d@, p as int, little) == Ok::<(int, int, bool), Seq<char>>((len as int, q as int, wide)));
    if len > (d.len() - q) as u64 {
        return Err("unit runs past the end of the section".to_owned());
    }
    let end: usize = q + len as usize;
    let (version, r) = match read_uint(d, q, 2, little) {
        Ok(x) => x,
        Err(m) => return Err(m),
    };
    if version < 2 || version > 5 {
        let mut m = "line table version ".to_owned();
        m.append(text::int_text(version as i128).as_str());
        m.append(" is not supported");
        return Err(m);
    }
    let mut addr_size: u8 = default_addr_size;
    let mut s: usize = r;
    if version >= 5 {
        if d.len() - r < 2 {
            return Err(truncated());
        }
        addr_size = d[r];
        s = r + 2;
    }
    let size: usize = if wide {
        8
    } else {
        4
    };
    let (hl, t) = match read_uint(d, s, size, little) {
        Ok(x) => x,
        Err(m) => return Err(m),
    };
    if hl as u128 + t as u128 > usize::MAX as u128 {
        return Err("header length overflows".to_owned());
    }
    let program: usize = t + hl as usize;
    let extra: usize = if version >= 4 {
        3
    } else {
        2
    };
    if d.len() - t < extra + 3 {
        return Err(truncated());
    }
    let f: usize = t + extra;
    let line_range: u8 = d[f + 1];
    if line_range == 0 {
        return Err("line_range is zero".to_owned());
    }
    let opcode_base: u8 = d[f + 2];
    let count: usize = if opcode_base > 1 {
        opcode_base as usize - 1
    } else {
        0
    };
    if d.len() - (f + 3) < count {
        return Err(truncated());
    }
    let tables: usize = f + 3 + count;
    let mut lengths: Vec<u8> = Vec::new();
    lengths.extend_from_slice(slice_subrange(d, f + 3, tables));
    assert(lengths@ =~= d@.subrange(f + 3, tables as int));
    Ok(
        HeadRec {
            end,
            version,
            wide,
            addr_size,
            program,
            min_inst: d[t],
            line_base: d[f] as i8,
            line_range,
            opcode_base,
            lengths,
            tables,
        },
    )
}

// ---- the line-number program: its state machine ----

/// The address ranges one line-number program row covers.
#[derive(Clone, Copy, Debug, PartialEq, Eq)]
pub struct Span {
    pub start: u64,
    pub end: u64,
    pub file: usize,
    pub line: u32,
}

/// The place of `name` among the names from `i` on.
pub open spec fn name_from(names: Seq<Seq<char>>, name: Seq<char>, i: int) -> Option<int>
    decreases names.len() - i,
{
    if i < 0 || i >= names.len() {
        None
    } else if names[i] == name {
        Some(i)
    } else {
        name_from(names, name, i + 1)
    }
}

/// The names with `name`, and its place among them.
pub open spec fn interned(names: Seq<Seq<char>>, name: Seq<char>) -> (Seq<Seq<char>>, int) {
    match name_from(names, name, 0) {
        Some(i) => (names, i),
        None => (names.push(name), names.len() as int),
    }
}

/// The names with the first `k` of `ns`, and the places of those.
pub open spec fn all_interned(names: Seq<Seq<char>>, ns: Seq<Seq<char>>, k: nat) -> (Seq<Seq<char>>, Seq<int>)
    decreases k,
{
    if k == 0 {
        (names, seq![])
    } else {
        let (before, ids) = all_interned(names, ns, (k - 1) as nat);
        let (after, id) = interned(before, ns[k - 1]);
        (after, ids.push(id))
    }
}

/// The last row of a sequence: its address, file and line.
pub struct Last {
    pub addr: int,
    pub file: int,
    pub line: int,
}

/// The state machine's registers, what it has given out, and where it is.
pub struct Regs {
    pub pos: int,
    pub addr: int,
    pub file: int,
    pub line: int,
    pub prev: Option<Last>,
    /// The unit's files, by their place among the image's.
    pub files: Seq<int>,
    pub names: Seq<Seq<char>>,
    pub spans: Seq<Span>,
}

/// The place of the unit's file `f`, or the first where it has none.
pub open spec fn file_of(files: Seq<int>, f: int) -> int {
    if 0 <= f < files.len() {
        files[f]
    } else {
        0
    }
}

/// A row given out. Line 0 means the compiler could not attribute the code to any line. Such
/// code still belongs to whatever came before it in the sequence, so it inherits the previous
/// row's line.
pub open spec fn emitted(r: Regs) -> Regs {
    let line = if 0 <= r.line <= u32::MAX {
        r.line
    } else {
        0
    };
    let own = Last { addr: r.addr, file: file_of(r.files, r.file), line };
    Regs {
        spans: match r.prev {
            Some(p) => if r.addr > p.addr {
                r.spans.push(
                    Span { start: p.addr as u64, end: r.addr as u64, file: p.file as usize, line: p.line as u32 },
                )
            } else {
                r.spans
            },
            None => r.spans,
        },
        prev: Some(
            match r.prev {
                Some(p) => if line == 0 && p.line != 0 {
                    Last { file: p.file, line: p.line, ..own }
                } else {
                    own
                },
                None => own,
            },
        ),
        ..r
    }
}

/// Where `n` numbers from `p` on end.
pub open spec fn skipped(d: Seq<u8>, p: int, n: nat) -> Result<int, Seq<char>>
    decreases n,
{
    if n == 0 {
        Ok(p)
    } else {
        match uleb(d, p) {
            Err(e) => Err(e),
            Ok((_, q)) => skipped(d, q, (n - 1) as nat),
        }
    }
}

/// An extended opcode, whose length stands at `p`.
pub open spec fn extended(d: Seq<u8>, h: Head, r: Regs, p: int, little: bool) -> Result<Regs, Seq<char>> {
    match uleb(d, p) {
        Err(e) => Err(e),
        Ok((len, q)) => if q + len > usize::MAX {
            Err("extended opcode length overflows"@)
        } else if len == 0 {
            Ok(Regs { pos: q, ..r })
        } else if q >= d.len() {
            Err("truncated"@)
        } else {
            let next = q + len;
            let op = d[q];
            if op == 1 {
                Ok(Regs { pos: next, addr: 0, file: 1, line: 1, prev: None, ..emitted(r) })
            } else if op == 2 {
                if len == 9 || len == 5 {
                    match uint(d, q + 1, (len - 1) as nat, little) {
                        Err(e) => Err(e),
                        Ok((a, _)) => Ok(Regs { pos: next, addr: a, ..r }),
                    }
                } else {
                    Err(
                        "address of "@ + text::decimal(len - 1) + " bytes (expected "@ + text::decimal(h.addr_size)
                            + ")"@,
                    )
                }
            } else if op == 3 {
                match string(d, q + 1) {
                    Err(e) => Err(e),
                    Ok((name, _)) => {
                        let (names, id) = interned(r.names, name);
                        Ok(Regs { pos: next, names, files: r.files.push(id), ..r })
                    },
                }
            } else {
                Ok(Regs { pos: next, ..r })
            }
        },
    }
}

/// One opcode.
pub open spec fn stepped(d: Seq<u8>, h: Head, r: Regs, little: bool) -> Result<Regs, Seq<char>> {
    if r.pos < 0 || r.pos >= d.len() {
        Err("truncated"@)
    } else {
        let op = d[r.pos] as int;
        let p = r.pos + 1;
        let here = Regs { pos: p, ..r };
        if op >= h.opcode_base {
            let adj = op - h.opcode_base;
            Ok(
                emitted(
                    Regs {
                        addr: wrapped(r.addr + adj / h.line_range * h.min_inst),
                        line: wrapped_signed(r.line + (h.line_base + adj % h.line_range)),
                        ..here
                    },
                ),
            )
        } else if op == 0 {
            extended(d, h, r, p, little)
        } else if op == 1 {
            Ok(emitted(here))
        } else if op == 2 {
            match uleb(d, p) {
                Err(e) => Err(e),
                Ok((n, q)) => Ok(Regs { pos: q, addr: wrapped(r.addr + wrapped(n * h.min_inst)), ..r }),
            }
        } else if op == 3 {
            match sleb(d, p) {
                Err(e) => Err(e),
                Ok((n, q)) => Ok(Regs { pos: q, line: wrapped_signed(r.line + n), ..r }),
            }
        } else if op == 4 {
            match uleb(d, p) {
                Err(e) => Err(e),
                Ok((n, q)) => Ok(Regs { pos: q, file: n as int, ..r }),
            }
        } else if op == 8 {
            Ok(Regs { addr: wrapped(r.addr + (255 - h.opcode_base) / h.line_range * h.min_inst), ..here })
        } else if op == 9 {
            match uint(d, p, 2, little) {
                Err(e) => Err(e),
                Ok((n, q)) => Ok(Regs { pos: q, addr: wrapped(r.addr + n), ..r }),
            }
        } else {
            match skipped(
                d,
                p,
                if op - 1 < h.lengths.len() {
                    h.lengths[op - 1] as nat
                } else {
                    0
                },
            ) {
                Err(e) => Err(e),
                Ok(q) => Ok(Regs { pos: q, ..r }),
            }
        }
    }
}

/// The opcodes up to the unit's end.
pub open spec fn ran(d: Seq<u8>, h: Head, r: Regs, little: bool) -> Result<Regs, Seq<char>>
    decreases h.end - r.pos,
{
    if r.pos >= h.end {
        Ok(r)
    } else {
        match stepped(d, h, r, little) {
            Err(e) => Err(e),
            Ok(s) => if s.pos <= r.pos || s.pos >= h.end {
                Ok(s)
            } else {
                ran(d, h, s, little)
            },
        }
    }
}

/// What the units so far have given: the names of files, and which addresses come from where.
pub struct Given {
    pub names: Seq<Seq<char>>,
    pub spans: Seq<Span>,
}

/// One line-number program: header, then opcodes. Where the next one is, and what was given.
pub open spec fn unit_of(d: Seq<u8>, p: int, strs: Strs, little: bool, default_addr_size: int, g: Given) -> Result<
    (int, Given),
    Seq<char>,
> {
    match head_of(d, p, little, default_addr_size) {
        Err(e) => Err(e),
        Ok(h) => match file_names(d, h.tables, h.version, strs, h.wide, little) {
            Err(e) => Err(e),
            Ok(ns) => {
                let (names, files) = all_interned(g.names, ns, ns.len());
                let r = Regs {
                    pos: h.program,
                    addr: 0,
                    file: 1,
                    line: 1,
                    prev: None,
                    files,
                    names,
                    spans: g.spans,
                };
                match ran(d, h, r, little) {
                    Err(e) => Err(e),
                    Ok(s) => Ok((h.end, Given { names: s.names, spans: s.spans })),
                }
            },
        },
    }
}

/// Every unit from `p` on.
pub open spec fn units(d: Seq<u8>, p: int, strs: Strs, little: bool, default_addr_size: int, g: Given) -> Result<
    Given,
    Seq<char>,
>
    decreases d.len() - p,
{
    if p < 0 || p >= d.len() {
        Ok(g)
    } else {
        match unit_of(d, p, strs, little, default_addr_size, g) {
            Err(e) => Err(".debug_line at offset 0x"@ + text::digits(p as nat, 16) + ": "@ + e),
            Ok((q, g2)) => if q <= p {
                Ok(g2)
            } else {
                units(d, q, strs, little, default_addr_size, g2)
            },
        }
    }
}

/// Every row of every line-number program in an image, as sorted address ranges.
#[derive(Debug)]
pub struct LineTable {
    pub files: Vec<String>,
    pub spans: Vec<Span>,
}

struct Machine {
    pos: usize,
    addr: u64,
    file: u64,
    line: i64,
    prev: Option<(u64, usize, u32)>,
    files: Vec<usize>,
    names: Vec<String>,
    spans: Vec<Span>,
}

spec fn indices(v: Seq<usize>) -> Seq<int> {
    Seq::new(v.len(), |i: int| v[i] as int)
}

spec fn last_view(p: Option<(u64, usize, u32)>) -> Option<Last> {
    match p {
        Some((a, f, l)) => Some(Last { addr: a as int, file: f as int, line: l as int }),
        None => None,
    }
}

impl View for Machine {
    type V = Regs;

    closed spec fn view(&self) -> Regs {
        Regs {
            pos: self.pos as int,
            addr: self.addr as int,
            file: self.file as int,
            line: self.line as int,
            prev: last_view(self.prev),
            files: indices(self.files@),
            names: text::views(self.names@),
            spans: self.spans@,
        }
    }
}

fn intern(names: &mut Vec<String>, name: String) -> (r: usize)
    ensures
        (text::views(final(names)@), r as int) == interned(text::views(old(names)@), name@),
{
    let ghost ns = text::views(names@);
    let mut i: usize = 0;
    while i < names.len()
        invariant
            ns == text::views(names@),
            ns == text::views(old(names)@),
            i <= names@.len(),
            name_from(ns, name@, 0) == name_from(ns, name@, i as int),
        decreases names@.len() - i,
    {
        assert(ns[i as int] == names@[i as int]@);
        if names[i] == name {
            return i;
        }
        i += 1;
    }
    push_name(names, name);
    i
}

impl Machine {
    fn emit(&mut self)
        ensures
            final(self)@ == emitted(old(self)@),
    {
        let ghost r = self@;
        let file: usize = if self.file < self.files.len() as u64 {
            assert(r.files[self.file as int] == self.files@[self.file as int]);
            self.files[self.file as usize]
        } else {
            0
        };
        let line: u32 = if 0 <= self.line && self.line <= 0xffff_ffff {
            self.line as u32
        } else {
            0
        };
        let mut own = (self.addr, file, line);
        match self.prev {
            Some((pa, pf, pl)) => {
                if self.addr > pa {
                    self.spans.push(Span { start: pa, end: self.addr, file: pf, line: pl });
                }
                if line == 0 && pl != 0 {
                    own = (self.addr, pf, pl);
                }
            },
            None => {},
        }
        self.prev = Some(own);
        assert(self@.spans =~= emitted(r).spans);
    }

    fn extended(&mut self, d: &[u8], h: &HeadRec, p: usize, little: bool) -> (r: Result<(), String>)
        requires
            d@.len() < usize::MAX,
        ensures
            match r {
                Ok(_) => extended(d@, head_view(*h), old(self)@, p as int, little) == Ok::<Regs, Seq<char>>(
                    final(self)@,
                ) && final(self).pos > p,
                Err(m) => extended(d@, head_view(*h), old(self)@, p as int, little) == Err::<Regs, Seq<char>>(m@),
            },
    {
        let ghost r0 = self@;
        let (len, q) = match read_uleb(d, p) {
            Ok(x) => x,
            Err(m) => return Err(m),
        };
        if len as u128 + q as u128 > usize::MAX as u128 {
            return Err("extended opcode length overflows".to_owned());
        }
        if len == 0 {
            self.pos = q;
            return Ok(());
        }
        if q >= d.len() {
            return Err(truncated());
        }
        let next: usize = q + len as usize;
        let op: u8 = d[q];
        if op == 1 {
            self.emit();
            self.prev = None;
            self.addr = 0;
            self.file = 1;
            self.line = 1;
        } else if op == 2 {
            if len == 9 || len == 5 {
                match read_uint(d, q + 1, (len - 1) as usize, little) {
                    Ok((a, _)) => {
                        self.addr = a;
                    },
                    Err(m) => return Err(m),
                }
            } else {
                let mut m = "address of ".to_owned();
                m.append(text::int_text((len - 1) as i128).as_str());
                m.append(" bytes (expected ");
                m.append(text::int_text(h.addr_size as i128).as_str());
                m.append(")");
                return Err(m);
            }
        } else if op == 3 {
            let (name, _) = match read_string(d, q + 1) {
                Ok(x) => x,
                Err(m) => return Err(m),
            };
            let id: usize = intern(&mut self.names, name);
            self.files.push(id);
            assert(indices(self.files@) =~= r0.files.push(id as int));
        }
        self.pos = next;
        Ok(())
    }

    fn step(&mut self, d: &[u8], h: &HeadRec, little: bool) -> (r: Result<(), String>)
        requires
            d@.len() < usize::MAX,
            h.line_range > 0,
        ensures
            match r {
                Ok(_) => stepped(d@, head_view(*h), old(self)@, little) == Ok::<Regs, Seq<char>>(final(self)@)
                    && final(self).pos > old(self).pos,
                Err(m) => stepped(d@, head_view(*h), old(self)@, little) == Err::<Regs, Seq<char>>(m@),
            },
    {
        let ghost r0 = self@;
        if self.pos >= d.len() {
            return Err(truncated());
        }
        let op: u8 = d[self.pos];
        let p: usize = self.pos + 1;
        if op >= h.opcode_base {
            let adj: u8 = op - h.opcode_base;
            let q: u8 = adj / h.line_range;
            self.pos = p;
            self.addr = wrap_add(self.addr, wrap_mul(q as u64, h.min_inst));
            proof {
                small_product(q as int, h.min_inst as int);
            }
            self.line = wrap_signed(self.line, h.line_base as i128 + (adj % h.line_range) as i128);
            self.emit();
            return Ok(());
        }
        if op == 0 {
            return self.extended(d, h, p, little);
        }
        if op == 1 {
            self.pos = p;
            self.emit();
        } else if op == 2 {
            match read_uleb(d, p) {
                Ok((n, q)) => {
                    self.addr = wrap_add(self.addr, wrap_mul(n, h.min_inst));
                    self.pos = q;
                },
                Err(m) => return Err(m),
            }
        } else if op == 3 {
            match read_sleb(d, p) {
                Ok((n, q)) => {
                    self.line = wrap_signed(self.line, n as i128);
                    self.pos = q;
                },
                Err(m) => return Err(m),
            }
        } else if op == 4 {
            match read_uleb(d, p) {
                Ok((n, q)) => {
                    self.file = n;
                    self.pos = q;
                },
                Err(m) => return Err(m),
            }
        } else if op == 8 {
            let q: u8 = (255 - h.opcode_base) / h.line_range;
            self.addr = wrap_add(self.addr, wrap_mul(q as u64, h.min_inst));
            proof {
                small_product(q as int, h.min_inst as int);
            }
            self.pos = p;
        } else if op == 9 {
            match read_uint(d, p, 2, little) {
                Ok((n, q)) => {
                    self.addr = wrap_add(self.addr, n);
                    self.pos = q;
                },
                Err(m) => return Err(m),
            }
        } else {
            // Everything else — column, statement flags, ISA — does not change which line an
            // address belongs to. Skip its operands by the count the header gave.
            let n: u8 = if (op as usize - 1) < h.lengths.len() {
                h.lengths[op as usize - 1]
            } else {
                0
            };
            let mut at: usize = p;
            let mut left: u8 = n;
            while left > 0
                invariant
                    p <= at,
                    self@ == r0,
                    skipped(d@, at as int, left as nat) == skipped(d@, p as int, n as nat),
                    stepped(d@, head_view(*h), r0, little) == (match skipped(d@, p as int, n as nat) {
                        Err(e) => Err::<Regs, Seq<char>>(e),
                        Ok(q) => Ok(Regs { pos: q, ..r0 }),
                    }),
                    r0 == old(self)@,
                decreases left,
            {
                match read_uleb(d, at) {
                    Ok((_, q)) => {
                        at = q;
                    },
                    Err(m) => return Err(m),
                }
                left -= 1;
            }
            self.pos = at;
        }
        Ok(())
    }
}

proof fn small_product(a: int, b: int)
    requires
        0 <= a <= 255,
        0 <= b <= 255,
    ensures
        wrapped(a * b) == a * b,
{
    assert(0 <= a * b <= 255 * 255) by (nonlinear_arith)
        requires
            0 <= a <= 255,
            0 <= b <= 255,
    ;
}

/// One line-number program. Where the next one is.
fn unit(
    d: &[u8],
    p: usize,
    strs: &Sections<'_>,
    little: bool,
    default_addr_size: u8,
    names: &mut Vec<String>,
    spans: &mut Vec<Span>,
) -> (r: Result<usize, String>)
    requires
        d@.len() < usize::MAX,
    ensures
        match r {
            Ok(q) => unit_of(
                d@,
                p as int,
                strs@,
                little,
                default_addr_size as int,
                Given { names: text::views(old(names)@), spans: old(spans)@ },
            ) == Ok::<(int, Given), Seq<char>>(
                (q as int, Given { names: text::views(final(names)@), spans: final(spans)@ }),
            ) && p < q <= d@.len(),
            Err(m) => unit_of(
                d@,
                p as int,
                strs@,
                little,
                default_addr_size as int,
                Given { names: text::views(old(names)@), spans: old(spans)@ },
            ) == Err::<(int, Given), Seq<char>>(m@),
        },
{
    let ghost g = Given { names: text::views(names@), spans: spans@ };
    let h = match read_head(d, p, little, default_addr_size) {
        Ok(h) => h,
        Err(m) => return Err(m),
    };
    let unit_names = match read_names(d, h.tables, h.version, strs, h.wide, little) {
        Ok(v) => v,
        Err(m) => return Err(m),
    };
    let ghost ns = text::views(unit_names@);
    let mut own_names: Vec<String> = Vec::new();
    std::mem::swap(&mut own_names, names);
    let mut own_spans: Vec<Span> = Vec::new();
    std::mem::swap(&mut own_spans, spans);
    let mut files: Vec<usize> = Vec::new();
    let mut k: usize = 0;
    assert(indices(files@) =~= seq![]);
    while k < unit_names.len()
        invariant
            ns == text::views(unit_names@),
            k <= unit_names@.len(),
            (text::views(own_names@), indices(files@)) == all_interned(g.names, ns, k as nat),
        decreases unit_names@.len() - k,
    {
        assert(ns[k as int] == unit_names@[k as int]@);
        let ghost before = indices(files@);
        let id: usize = intern(&mut own_names, unit_names[k].clone());
        files.push(id);
        assert(indices(files@) =~= before.push(id as int));
        k += 1;
    }
    let mut m = Machine {
        pos: h.program,
        addr: 0,
        file: 1,
        line: 1,
        prev: None,
        files,
        names: own_names,
        spans: own_spans,
    };
    let ghost r0 = m@;
    let ghost hv = head_view(h);
    while m.pos < h.end
        invariant
            d@.len() < usize::MAX,
            h.line_range > 0,
            hv == head_view(h),
            ran(d@, hv, m@, little) == ran(d@, hv, r0, little),
            unit_of(d@, p as int, strs@, little, default_addr_size as int, g) == (match ran(d@, hv, r0, little) {
                Err(e) => Err::<(int, Given), Seq<char>>(e),
                Ok(s) => Ok((hv.end, Given { names: s.names, spans: s.spans })),
            }),
            g == (Given { names: text::views(old(names)@), spans: old(spans)@ }),
        decreases if m.pos < h.end {
            h.end - m.pos
        } else {
            0
        },
    {
        match m.step(d, &h, little) {
            Ok(_) => {},
            Err(e) => return Err(e),
        }
    }
    *names = m.names;
    *spans = m.spans;
    Ok(h.end)
}

// ---- the table ----

/// Whether the span at `a` comes before the one at `b` in a list: by its start, by its end, and
/// by its place.
pub open spec fn span_less(s: Seq<Span>, a: int, b: int) -> bool {
    if s[a].start != s[b].start {
        s[a].start < s[b].start
    } else if s[a].end != s[b].end {
        s[a].end < s[b].end
    } else {
        a < b
    }
}

/// Whether `p` lists the places from `lo` up to `hi`, each once, in the order of the spans there.
pub open spec fn orders(s: Seq<Span>, p: Seq<int>, lo: int, hi: int) -> bool {
    &&& p.len() == hi - lo
    &&& forall|i: int| 0 <= i < p.len() ==> lo <= #[trigger] p[i] < hi
    &&& forall|i: int, j: int| 0 <= i < j < p.len() ==> span_less(s, #[trigger] p[i], #[trigger] p[j])
}

/// Whether `r` is `s` sorted by start and then by end, spans alike in both staying in order.
pub open spec fn sorts(s: Seq<Span>, r: Seq<Span>) -> bool {
    exists|p: Seq<int>| #[trigger] orders(s, p, 0, s.len() as int) && r == Seq::new(s.len(), |i: int| s[p[i]])
}

fn comes_first(s: &Vec<Span>, a: usize, b: usize) -> (r: bool)
    requires
        a < s@.len(),
        b < s@.len(),
    ensures
        r == span_less(s@, a as int, b as int),
{
    if s[a].start != s[b].start {
        s[a].start < s[b].start
    } else if s[a].end != s[b].end {
        s[a].end < s[b].end
    } else {
        a < b
    }
}

fn order(s: &Vec<Span>, lo: usize, hi: usize) -> (r: Vec<usize>)
    requires
        lo <= hi <= s@.len(),
    ensures
        orders(s@, indices(r@), lo as int, hi as int),
    decreases hi - lo,
{
    let mut out: Vec<usize> = Vec::new();
    if hi - lo < 2 {
        if hi > lo {
            out.push(lo);
        }
        return out;
    }
    let mid: usize = lo + (hi - lo) / 2;
    let a = order(s, lo, mid);
    let b = order(s, mid, hi);
    let ghost x = indices(a@);
    let ghost y = indices(b@);
    let mut i: usize = 0;
    let mut j: usize = 0;
    while i < a.len() || j < b.len()
        invariant
            lo <= mid <= hi <= s@.len(),
            x == indices(a@),
            y == indices(b@),
            orders(s@, x, lo as int, mid as int),
            orders(s@, y, mid as int, hi as int),
            i <= a@.len(),
            j <= b@.len(),
            out@.len() == i + j,
            forall|k: int| 0 <= k < out@.len() ==> lo <= #[trigger] out@[k] < hi,
            forall|k: int, l: int| 0 <= k < l < out@.len() ==> span_less(s@, #[trigger] out@[k] as int, #[trigger] out@[l] as int),
            forall|k: int| 0 <= k < out@.len() && i < a@.len() ==> span_less(s@, #[trigger] out@[k] as int, x[i as int]),
            forall|k: int| 0 <= k < out@.len() && j < b@.len() ==> span_less(s@, #[trigger] out@[k] as int, y[j as int]),
        decreases a@.len() - i + (b@.len() - j),
    {
        assert(x.len() == a@.len() && y.len() == b@.len());
        assert(i < a@.len() ==> x[i as int] == a@[i as int]);
        assert(j < b@.len() ==> y[j as int] == b@[j as int]);
        assert(i + 1 < a@.len() ==> x[i + 1] == a@[i + 1] && span_less(s@, x[i as int], x[i + 1]));
        assert(j + 1 < b@.len() ==> y[j + 1] == b@[j + 1] && span_less(s@, y[j as int], y[j + 1]));
        let left = if j >= b.len() {
            true
        } else if i >= a.len() {
            false
        } else {
            comes_first(s, a[i], b[j])
        };
        if left {
            out.push(a[i]);
            i += 1;
        } else {
            out.push(b[j]);
            j += 1;
        }
    }
    assert forall|k: int, l: int| 0 <= k < l < indices(out@).len() implies span_less(
        s@,
        #[trigger] indices(out@)[k],
        #[trigger] indices(out@)[l],
    ) by {
        assert(indices(out@)[k] == out@[k] && indices(out@)[l] == out@[l]);
    }
    out
}

fn sorted_spans(s: &Vec<Span>) -> (r: Vec<Span>)
    ensures
        sorts(s@, r@),
{
    let p = order(s, 0, s.len());
    let ghost ids = indices(p@);
    let mut r: Vec<Span> = Vec::new();
    let mut i: usize = 0;
    while i < p.len()
        invariant
            ids == indices(p@),
            orders(s@, ids, 0, s@.len() as int),
            i <= p@.len(),
            r@.len() == i,
            forall|k: int| 0 <= k < i ==> #[trigger] r@[k] == s@[ids[k]],
        decreases p@.len() - i,
    {
        assert(ids[i as int] == p@[i as int]);
        r.push(s[p[i]]);
        i += 1;
    }
    assert(r@ =~= Seq::new(s@.len(), |i: int| s@[ids[i]]));
    r
}

/// Parse a whole `.debug_line` section.
pub fn parse(data: &[u8], strs: &Sections<'_>, little: bool, default_addr_size: u8) -> (r: Result<LineTable, String>)
    requires
        data@.len() < usize::MAX,
    ensures
        match r {
            Ok(t) => units(
                data@,
                0,
                strs@,
                little,
                default_addr_size as int,
                Given { names: seq![], spans: seq![] },
            ) is Ok && ({
                let g = units(
                    data@,
                    0,
                    strs@,
                    little,
                    default_addr_size as int,
                    Given { names: seq![], spans: seq![] },
                )->Ok_0;
                text::views(t.files@) == g.names && sorts(g.spans, t.spans@)
            }) && (t.files@.len() > 0 ==> t.named()),
            Err(m) => units(
                data@,
                0,
                strs@,
                little,
                default_addr_size as int,
                Given { names: seq![], spans: seq![] },
            ) == Err::<Given, Seq<char>>(m@),
        },
{
    let ghost want = units(
        data@,
        0,
        strs@,
        little,
        default_addr_size as int,
        Given { names: seq![], spans: seq![] },
    );
    let mut names: Vec<String> = Vec::new();
    let mut spans: Vec<Span> = Vec::new();
    let mut pos: usize = 0;
    assert(text::views(names@) =~= seq![]);
    assert(spans@ =~= seq![]);
    while pos < data.len()
        invariant
            data@.len() < usize::MAX,
            pos <= data@.len(),
            units(
                data@,
                pos as int,
                strs@,
                little,
                default_addr_size as int,
                Given { names: text::views(names@), spans: spans@ },
            ) == want,
            want == units(
                data@,
                0,
                strs@,
                little,
                default_addr_size as int,
                Given { names: seq![], spans: seq![] },
            ),
        decreases data@.len() - pos,
    {
        match unit(data, pos, strs, little, default_addr_size, &mut names, &mut spans) {
            Ok(q) => {
                pos = q;
            },
            Err(e) => {
                let mut m = ".debug_line at offset 0x".to_owned();
                m.append(text::radix_text(pos as u128, 16).as_str());
                m.append(": ");
                m.append(e.as_str());
                return Err(m);
            },
        }
    }
    let sorted = sorted_spans(&spans);
    proof {
        let listed = text::views(names@);
        assert(names@.len() == names.len());
        spans_are_of_named_files(
            data@,
            0,
            strs@,
            little,
            default_addr_size as int,
            Given { names: seq![], spans: seq![] },
        );
        sorting_keeps_files(spans@, sorted@, listed);
    }
    Ok(LineTable { files: names, spans: sorted })
}

/// How many names there must be for a place among them: one, where there is none, is the first.
pub open spec fn roof(names: Seq<Seq<char>>) -> nat {
    if names.len() == 0 {
        1
    } else {
        names.len()
    }
}

/// Whether every span's file is one of the names, or the first where there is none.
pub open spec fn within(spans: Seq<Span>, names: Seq<Seq<char>>) -> bool {
    forall|i: int| 0 <= i < spans.len() ==> (#[trigger] spans[i]).file < roof(names)
}

spec fn sound_regs(r: Regs) -> bool {
    &&& forall|i: int| 0 <= i < r.files.len() ==> 0 <= #[trigger] r.files[i] < r.names.len()
    &&& r.prev is Some ==> 0 <= r.prev->0.file < roof(r.names)
    &&& within(r.spans, r.names)
}

proof fn name_is_inside(names: Seq<Seq<char>>, name: Seq<char>, i: int)
    requires
        0 <= i,
    ensures
        name_from(names, name, i) is Some ==> i <= name_from(names, name, i)->0 < names.len(),
    decreases names.len() - i,
{
    if i < names.len() && names[i] != name {
        name_is_inside(names, name, i + 1);
    }
}

proof fn interned_is_inside(names: Seq<Seq<char>>, ns: Seq<Seq<char>>, k: nat)
    ensures
        ({
            let (after, ids) = all_interned(names, ns, k);
            &&& after.len() >= names.len()
            &&& forall|i: int| 0 <= i < ids.len() ==> 0 <= #[trigger] ids[i] < after.len()
        }),
    decreases k,
{
    if k > 0 {
        interned_is_inside(names, ns, (k - 1) as nat);
        let before = all_interned(names, ns, (k - 1) as nat).0;
        name_is_inside(before, ns[k - 1], 0);
    }
}

proof fn emitting_is_sound(r: Regs)
    requires
        sound_regs(r),
        roof(r.names) <= usize::MAX,
    ensures
        sound_regs(emitted(r)),
        emitted(r).names == r.names,
{
    let e = emitted(r);
    assert forall|i: int| 0 <= i < e.spans.len() implies (#[trigger] e.spans[i]).file < roof(r.names) by {
        if i < r.spans.len() {
            assert(e.spans[i] == r.spans[i]);
        }
    }
}

proof fn stepping_grows(d: Seq<u8>, h: Head, r: Regs, little: bool)
    ensures
        stepped(d, h, r, little) is Ok ==> r.names.len() <= stepped(d, h, r, little)->Ok_0.names.len(),
{
}

proof fn stepping_is_sound(d: Seq<u8>, h: Head, r: Regs, little: bool)
    requires
        sound_regs(r),
        stepped(d, h, r, little) is Ok,
        roof(stepped(d, h, r, little)->Ok_0.names) <= usize::MAX,
    ensures
        sound_regs(stepped(d, h, r, little)->Ok_0),
{
    stepping_grows(d, h, r, little);
    let s = stepped(d, h, r, little)->Ok_0;
    let op = d[r.pos] as int;
    let here = Regs { pos: r.pos + 1, ..r };
    if op >= h.opcode_base {
        let adj = op - h.opcode_base;
        emitting_is_sound(
            Regs {
                addr: wrapped(r.addr + adj / h.line_range * h.min_inst),
                line: wrapped_signed(r.line + (h.line_base + adj % h.line_range)),
                ..here
            },
        );
    } else if op == 0 {
        let q = uleb(d, r.pos + 1)->Ok_0.1;
        emitting_is_sound(r);
        if uleb(d, r.pos + 1)->Ok_0.0 > 0 && d[q] == 3 {
            let name = string(d, q + 1)->Ok_0.0;
            name_is_inside(r.names, name, 0);
            assert(within(s.spans, s.names));
        }
    } else if op == 1 {
        emitting_is_sound(here);
    }
}

proof fn running_grows(d: Seq<u8>, h: Head, r: Regs, little: bool)
    ensures
        ran(d, h, r, little) is Ok ==> r.names.len() <= ran(d, h, r, little)->Ok_0.names.len(),
    decreases h.end - r.pos,
{
    if r.pos < h.end {
        stepping_grows(d, h, r, little);
        if let Ok(s) = stepped(d, h, r, little) {
            if r.pos < s.pos < h.end {
                running_grows(d, h, s, little);
            }
        }
    }
}

proof fn running_is_sound(d: Seq<u8>, h: Head, r: Regs, little: bool)
    requires
        sound_regs(r),
        ran(d, h, r, little) is Ok,
        roof(ran(d, h, r, little)->Ok_0.names) <= usize::MAX,
    ensures
        sound_regs(ran(d, h, r, little)->Ok_0),
    decreases h.end - r.pos,
{
    if r.pos < h.end {
        let s = stepped(d, h, r, little)->Ok_0;
        if r.pos < s.pos < h.end {
            running_grows(d, h, s, little);
            stepping_is_sound(d, h, r, little);
            running_is_sound(d, h, s, little);
        } else {
            stepping_is_sound(d, h, r, little);
        }
    }
}

proof fn units_grow(d: Seq<u8>, p: int, strs: Strs, little: bool, size: int, g: Given)
    ensures
        units(d, p, strs, little, size, g) is Ok ==> g.names.len() <= units(
            d,
            p,
            strs,
            little,
            size,
            g,
        )->Ok_0.names.len(),
    decreases d.len() - p,
{
    if 0 <= p < d.len() {
        if let Ok((q, next)) = unit_of(d, p, strs, little, size, g) {
            unit_grows(d, p, strs, little, size, g);
            if q > p {
                units_grow(d, q, strs, little, size, next);
            }
        }
    }
}

spec fn starting(h: Head, ns: Seq<Seq<char>>, g: Given) -> Regs {
    let (names, files) = all_interned(g.names, ns, ns.len());
    Regs { pos: h.program, addr: 0, file: 1, line: 1, prev: None, files, names, spans: g.spans }
}

proof fn unit_grows(d: Seq<u8>, p: int, strs: Strs, little: bool, size: int, g: Given)
    requires
        unit_of(d, p, strs, little, size, g) is Ok,
    ensures
        g.names.len() <= unit_of(d, p, strs, little, size, g)->Ok_0.1.names.len(),
        within(g.spans, g.names) && roof(unit_of(d, p, strs, little, size, g)->Ok_0.1.names) <= usize::MAX ==> within(
            unit_of(d, p, strs, little, size, g)->Ok_0.1.spans,
            unit_of(d, p, strs, little, size, g)->Ok_0.1.names,
        ),
{
    let h = head_of(d, p, little, size)->Ok_0;
    let ns = file_names(d, h.tables, h.version, strs, h.wide, little)->Ok_0;
    let r = starting(h, ns, g);
    interned_is_inside(g.names, ns, ns.len());
    running_grows(d, h, r, little);
    if within(g.spans, g.names) && roof(unit_of(d, p, strs, little, size, g)->Ok_0.1.names) <= usize::MAX {
        assert(within(r.spans, r.names));
        running_is_sound(d, h, r, little);
    }
}

/// Every span that the units give is of a file that they name, where they name one at all.
pub proof fn spans_are_of_named_files(d: Seq<u8>, p: int, strs: Strs, little: bool, size: int, g: Given)
    requires
        within(g.spans, g.names),
        units(d, p, strs, little, size, g) is Ok,
        units(d, p, strs, little, size, g)->Ok_0.names.len() <= usize::MAX,
    ensures
        within(units(d, p, strs, little, size, g)->Ok_0.spans, units(d, p, strs, little, size, g)->Ok_0.names),
    decreases d.len() - p,
{
    if 0 <= p < d.len() {
        let (q, next) = unit_of(d, p, strs, little, size, g)->Ok_0;
        if q > p {
            units_grow(d, q, strs, little, size, next);
            unit_grows(d, p, strs, little, size, g);
            spans_are_of_named_files(d, q, strs, little, size, next);
        } else {
            unit_grows(d, p, strs, little, size, g);
        }
    }
}

proof fn sorting_keeps_files(s: Seq<Span>, r: Seq<Span>, names: Seq<Seq<char>>)
    requires
        within(s, names),
        sorts(s, r),
    ensures
        within(r, names),
{
    let p = choose|p: Seq<int>| #[trigger]
        orders(s, p, 0, s.len() as int) && r == Seq::new(s.len(), |i: int| s[p[i]]);
    assert forall|i: int| 0 <= i < r.len() implies (#[trigger] r[i]).file < roof(names) by {
        assert(0 <= p[i] < s.len());
        assert(r[i] == s[p[i]]);
    }
}

/// How many spans from `i` on start at or below `addr`, before the first that does not.
pub open spec fn below(s: Seq<Span>, addr: int, i: int) -> int
    decreases s.len() - i,
{
    if 0 <= i < s.len() && s[i].start <= addr {
        below(s, addr, i + 1)
    } else {
        i
    }
}

/// The last of at most `n` spans before `i` that ends above `addr`.
pub open spec fn covering(s: Seq<Span>, addr: int, i: int, n: nat) -> Option<Span>
    decreases n,
{
    if n == 0 || i <= 0 || i > s.len() {
        None
    } else if addr < s[i - 1].end {
        Some(s[i - 1])
    } else {
        covering(s, addr, i - 1, (n - 1) as nat)
    }
}

impl LineTable {
    /// Whether every span's file has a name.
    pub open spec fn named(&self) -> bool {
        forall|i: int| 0 <= i < self.spans@.len() ==> (#[trigger] self.spans@[i]).file < self.files@.len()
    }

    /// Whether every span's file has a name. A program that names no file and still gives out
    /// rows has none.
    pub fn is_named(&self) -> (r: bool)
        ensures
            r == self.named(),
    {
        let mut i: usize = 0;
        while i < self.spans.len()
            invariant
                i <= self.spans@.len(),
                forall|k: int| 0 <= k < i ==> (#[trigger] self.spans@[k]).file < self.files@.len(),
            decreases self.spans@.len() - i,
        {
            if self.spans[i].file >= self.files.len() {
                return false;
            }
            i += 1;
        }
        true
    }

    pub fn from_elf(elf: &Elf<'_>) -> (r: Result<LineTable, String>)
        requires
            elf_sound(elf@),
            elf.data@.len() < usize::MAX,
        ensures
            match contents(elf@, ".debug_line"@) {
                None => r is Err && r->Err_0@ == "no .debug_line section: was the image built with debug info?"@,
                Some(line) => {
                    let strs = Strs {
                        line_str: section_or_empty(elf@, ".debug_line_str"@),
                        plain: section_or_empty(elf@, ".debug_str"@),
                    };
                    let size = if elf@.is64 {
                        8int
                    } else {
                        4int
                    };
                    let want = units(line, 0, strs, elf@.little, size, Given { names: seq![], spans: seq![] });
                    match r {
                        Ok(t) => want is Ok && text::views(t.files@) == want->Ok_0.names && sorts(
                            want->Ok_0.spans,
                            t.spans@,
                        ) && (t.files@.len() > 0 ==> t.named()),
                        Err(m) => want == Err::<Given, Seq<char>>(m@),
                    }
                },
            },
    {
        let line = match elf.section(".debug_line") {
            Some(s) => s,
            None => return Err("no .debug_line section: was the image built with debug info?".to_owned()),
        };
        let none: [u8; 0] = [];
        let line_str = match elf.section(".debug_line_str") {
            Some(s) => s,
            None => none.as_slice(),
        };
        let plain = match elf.section(".debug_str") {
            Some(s) => s,
            None => none.as_slice(),
        };
        assert(line_str@ =~= section_or_empty(elf@, ".debug_line_str"@));
        assert(plain@ =~= section_or_empty(elf@, ".debug_str"@));
        let strs = Sections { line_str, str: plain };
        proof {
            section_is_short(elf@, ".debug_line"@, 0);
        }
        parse(
            line,
            &strs,
            elf.little,
            if elf.is64 {
                8
            } else {
                4
            },
        )
    }

    /// The file and line an address was compiled from.
    pub fn lookup(&self, addr: u64) -> (r: Option<(&str, u32)>)
        requires
            self.named(),
        ensures
            match r {
                Some((name, line)) => ({
                    let s = covering(self.spans@, addr as int, below(self.spans@, addr as int, 0), 8);
                    s is Some && name@ == self.files@[s->0.file as int]@ && line == s->0.line
                }),
                None => covering(self.spans@, addr as int, below(self.spans@, addr as int, 0), 8) is None,
            },
    {
        let ghost s = self.spans@;
        let mut i: usize = 0;
        while i < self.spans.len() && self.spans[i].start <= addr
            invariant
                s == self.spans@,
                i <= s.len(),
                below(s, addr as int, 0) == below(s, addr as int, i as int),
            decreases s.len() - i,
        {
            i += 1;
        }
        let mut n: u8 = 8;
        let ghost want = covering(s, addr as int, i as int, 8);
        while n > 0 && i > 0
            invariant
                self.named(),
                s == self.spans@,
                i <= s.len(),
                covering(s, addr as int, i as int, n as nat) == want,
                want == covering(s, addr as int, below(s, addr as int, 0), 8),
            decreases n,
        {
            let x = self.spans[i - 1];
            if addr < x.end {
                return Some((self.files[x.file].as_str(), x.line));
            }
            i -= 1;
            n -= 1;
        }
        None
    }
}

/// A section's contents, or none.
pub open spec fn section_or_empty(f: File, name: Seq<char>) -> Seq<u8> {
    match contents(f, name) {
        Some(s) => s,
        None => seq![],
    }
}

proof fn section_is_short(f: File, name: Seq<char>, i: int)
    requires
        elf_sound(f),
        0 <= i,
        part_from(f.parts, name, i) is Some,
    ensures
        ({
            let p = part_from(f.parts, name, i)->0;
            0 <= p.offset && 0 <= p.size && p.offset + p.size <= f.data.len()
        }),
    decreases f.parts.len() - i,
{
    if !(f.parts[i].name == name && !f.parts[i].nobits) {
        section_is_short(f, name, i + 1);
    }
}

proof fn starts_below(s: Seq<Span>, addr: int, i: int, k: int)
    requires
        0 <= i <= k < below(s, addr, i),
    ensures
        k < s.len(),
        s[k].start <= addr,
    decreases s.len() - i,
{
    if i < k {
        starts_below(s, addr, i + 1, k);
    }
}

proof fn covering_is_below(s: Seq<Span>, addr: int, i: int, n: nat) -> (k: int)
    requires
        covering(s, addr, i, n) is Some,
    ensures
        0 <= k < i,
        covering(s, addr, i, n) == Some(s[k]),
        addr < s[k].end,
    decreases n,
{
    if addr < s[i - 1].end {
        i - 1
    } else {
        covering_is_below(s, addr, i - 1, (n - 1) as nat)
    }
}

/// The span a lookup finds holds the address: it starts at it or below, and ends above it.
pub proof fn lookups_hold_the_address(s: Seq<Span>, addr: int)
    requires
        covering(s, addr, below(s, addr, 0), 8) is Some,
    ensures
        ({
            let x = covering(s, addr, below(s, addr, 0), 8)->0;
            x.start <= addr < x.end
        }),
{
    let k = covering_is_below(s, addr, below(s, addr, 0), 8);
    starts_below(s, addr, 0, k);
}

} // verus!
