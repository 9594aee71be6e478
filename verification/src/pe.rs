//! Editing a PE/COFF image after the linker has written it.
//!
//! The EFI stub is the kernel as its own UEFI application: one file the firmware starts, with no
//! separate loader beside it on the partition. The linker produces the stub's own code as a PE;
//! the kernel is a separate link for a different target, built later, and is added here:
//!
//! 1. [`add_section`] appends the kernel's bytes to the PE as one more section. The firmware loads
//!    every section it is told about, so the kernel arrives in memory with the stub.
//! 2. [`stamp`] writes where that section landed into a marked descriptor that the stub declares,
//!    so the stub finds the kernel by reading a struct rather than by parsing its own headers.
//!
//! The PE checksum and timestamp stay whatever the linker wrote.

use vstd::prelude::*;
use vstd::string::*;

use crate::bytes;
use crate::text;

verus! {

/// In the DOS header: the file offset of the PE signature.
pub const E_LFANEW: usize = 0x3c;

/// From the COFF header's start.
pub const NUMBER_OF_SECTIONS: usize = 2;

pub const SIZE_OF_OPTIONAL_HEADER: usize = 16;

/// From the optional header's start, PE32+ only.
pub const OPT_MAGIC: usize = 0;

pub const SECTION_ALIGNMENT: usize = 32;

pub const FILE_ALIGNMENT: usize = 36;

pub const SIZE_OF_IMAGE: usize = 56;

pub const SIZE_OF_HEADERS: usize = 60;

/// From a section header's start.
pub const SEC_VIRTUAL_SIZE: usize = 8;

pub const SEC_VIRTUAL_ADDRESS: usize = 12;

pub const SEC_SIZE_OF_RAW_DATA: usize = 16;

pub const SEC_POINTER_TO_RAW_DATA: usize = 20;

pub const SEC_CHARACTERISTICS: usize = 36;

/// Bytes in one section header.
pub const SECTION_HEADER: usize = 40;

/// Bytes in the COFF header, between the signature and the optional header.
pub const COFF_HEADER: usize = 20;

/// `IMAGE_NT_OPTIONAL_HDR64_MAGIC`: the only kind of image this edits.
pub const PE32PLUS: u16 = 0x20b;

/// Initialised data, readable, not writable and not executable: what a blob that the stub only
/// reads should be.
pub const DATA_SECTION: u32 = 0x4000_0040;

/// What precedes the words that [`stamp`] writes into the EFI stub: `KinTane-KERNEL:` and a zero.
///
/// Sixteen bytes, a multiple of the words' alignment, because the words follow the marker at once.
pub const KERNEL_BLOB_MARKER: [u8; 16] = [75u8, 105, 110, 84, 97, 110, 101, 45, 75, 69, 82, 78, 69, 76, 58, 0];

/// A PE image's geometry, as far as this module needs it.
#[derive(Debug)]
pub struct Headers {
    /// File offset of the PE signature.
    pub pe: usize,
    pub sections: usize,
    pub section_table: usize,
    pub section_alignment: u32,
    pub file_alignment: u32,
    pub size_of_image: u32,
    pub size_of_headers: u32,
}

/// A PE image's geometry, as numbers.
pub ghost struct Geometry {
    pub pe: int,
    pub sections: int,
    pub table: int,
    pub section_alignment: int,
    pub file_alignment: int,
    pub size_of_image: int,
    pub size_of_headers: int,
}

impl View for Headers {
    type V = Geometry;

    open spec fn view(&self) -> Geometry {
        Geometry {
            pe: self.pe as int,
            sections: self.sections as int,
            table: self.section_table as int,
            section_alignment: self.section_alignment as int,
            file_alignment: self.file_alignment as int,
            size_of_image: self.size_of_image as int,
            size_of_headers: self.size_of_headers as int,
        }
    }
}

/// A section's name, address and size.
pub ghost struct Section {
    pub name: Seq<char>,
    pub address: int,
    pub size: int,
}

/// The sections that a list of them stands for.
pub open spec fn sections_of(v: Seq<(String, u32, u32)>) -> Seq<Section> {
    v.map_values(|s: (String, u32, u32)| Section { name: s.0@, address: s.1 as int, size: s.2 as int })
}

/// Why an image that ends before `at` is refused.
pub open spec fn ends_at(at: int) -> Seq<char> {
    "the PE image ends inside its headers, at "@ + text::hexadecimal(at)
}

/// The two letters every such image begins with.
pub open spec fn dos_signature() -> Seq<u8> {
    seq![0x4du8, 0x5a]
}

/// What stands before the COFF header.
pub open spec fn pe_signature() -> Seq<u8> {
    seq![0x50u8, 0x45, 0, 0]
}

/// The headers of an image, whose PE signature stands at `pe`.
pub open spec fn geometry_at(d: Seq<u8>, pe: int) -> Result<Geometry, Seq<char>> {
    let coff = pe + 4;
    let opt = coff + COFF_HEADER;
    if d.len() < coff + NUMBER_OF_SECTIONS + 2 {
        Err(ends_at(coff + NUMBER_OF_SECTIONS))
    } else if d.len() < coff + SIZE_OF_OPTIONAL_HEADER + 2 {
        Err(ends_at(coff + SIZE_OF_OPTIONAL_HEADER))
    } else if d.len() < opt + OPT_MAGIC + 2 {
        Err(ends_at(opt + OPT_MAGIC))
    } else if bytes::le16(d, opt + OPT_MAGIC) != PE32PLUS {
        Err(
            "the PE image is not PE32+ (optional header magic "@ + text::hexadecimal(
                bytes::le16(d, opt + OPT_MAGIC),
            ) + "); only the 64-bit form is edited here"@,
        )
    } else if d.len() < opt + SECTION_ALIGNMENT + 4 {
        Err(ends_at(opt + SECTION_ALIGNMENT))
    } else if d.len() < opt + FILE_ALIGNMENT + 4 {
        Err(ends_at(opt + FILE_ALIGNMENT))
    } else if d.len() < opt + SIZE_OF_IMAGE + 4 {
        Err(ends_at(opt + SIZE_OF_IMAGE))
    } else if d.len() < opt + SIZE_OF_HEADERS + 4 {
        Err(ends_at(opt + SIZE_OF_HEADERS))
    } else {
        Ok(
            Geometry {
                pe,
                sections: bytes::le16(d, coff + NUMBER_OF_SECTIONS),
                table: opt + bytes::le16(d, coff + SIZE_OF_OPTIONAL_HEADER),
                section_alignment: bytes::le32(d, opt + SECTION_ALIGNMENT),
                file_alignment: bytes::le32(d, opt + FILE_ALIGNMENT),
                size_of_image: bytes::le32(d, opt + SIZE_OF_IMAGE),
                size_of_headers: bytes::le32(d, opt + SIZE_OF_HEADERS),
            },
        )
    }
}

/// The headers of an image.
pub open spec fn geometry(d: Seq<u8>) -> Result<Geometry, Seq<char>> {
    if !bytes::begins(d, dos_signature()) {
        Err("not a PE image: no MZ signature"@)
    } else if d.len() < E_LFANEW + 4 {
        Err(ends_at(E_LFANEW as int))
    } else {
        let pe = bytes::le32(d, E_LFANEW as int);
        if !bytes::stands_at(d, pe, pe_signature()) {
            Err("not a PE image: no PE signature at "@ + text::hexadecimal(pe))
        } else {
            geometry_at(d, pe)
        }
    }
}

/// Where the first zero byte stands, from `i` on, or the end.
pub open spec fn zero_from(b: Seq<u8>, i: int) -> int
    decreases b.len() - i,
{
    if i >= b.len() || b[i] == 0 {
        i
    } else {
        zero_from(b, i + 1)
    }
}

/// A section's name: each byte a character, up to the first zero.
pub open spec fn shown(raw: Seq<u8>) -> Seq<char> {
    text::as_chars(raw.subrange(0, zero_from(raw, 0)))
}

/// The section whose header stands at `h`.
pub open spec fn section_at(d: Seq<u8>, h: int) -> Section {
    Section {
        name: shown(d.subrange(h, h + 8)),
        address: bytes::le32(d, h + SEC_VIRTUAL_ADDRESS),
        size: bytes::le32(d, h + SEC_VIRTUAL_SIZE),
    }
}

/// The sections from number `i` on, of `n` in a table.
pub open spec fn listed(d: Seq<u8>, table: int, n: int, i: int) -> Result<Seq<Section>, Seq<char>>
    decreases n - i,
{
    let h = table + i * SECTION_HEADER;
    if i >= n {
        Ok(seq![])
    } else if h + 8 > d.len() {
        Err("the PE image ends inside section header "@ + text::decimal(i))
    } else if h + 16 > d.len() {
        Err(ends_at(h + SEC_VIRTUAL_ADDRESS))
    } else {
        match listed(d, table, n, i + 1) {
            Ok(rest) => Ok(seq![section_at(d, h)] + rest),
            Err(e) => Err(e),
        }
    }
}

fn ends_inside(at: u128) -> (r: String)
    ensures
        r@ == ends_at(at as int),
{
    let mut m = "the PE image ends inside its headers, at ".to_owned();
    m.append(text::hex_text(at).as_str());
    m
}

fn name_text(raw: &[u8], from: usize) -> (r: String)
    requires
        from + 8 <= raw@.len(),
    ensures
        r@ == shown(raw@.subrange(from as int, from + 8)),
{
    let ghost len = raw.len();
    let ghost field = raw@.subrange(from as int, from + 8);
    let mut r = String::new();
    let mut i: usize = 0;
    assert(r@ =~= text::as_chars(field.subrange(0, 0)));
    while i < 8 && raw[from + i] != 0
        invariant
            i <= 8,
            from + 8 <= raw@.len() == len,
            field == raw@.subrange(from as int, from + 8),
            zero_from(field, i as int) == zero_from(field, 0),
            r@ == text::as_chars(field.subrange(0, i as int)),
        decreases 8 - i,
    {
        assert(field[i as int] == raw@[from + i]);
        r.push(raw[from + i] as char);
        assert(r@ =~= text::as_chars(field.subrange(0, i + 1)));
        i += 1;
    }
    assert(i < 8 ==> field[i as int] == raw@[from + i]);
    r
}

impl Headers {
    /// Read the headers of `image`.
    pub fn parse(image: &[u8]) -> (r: Result<Headers, String>)
        requires
            image@.len() + 0x1_0000 <= usize::MAX,
        ensures
            match r {
                Ok(h) => geometry(image@) == Ok::<Geometry, Seq<char>>(h@),
                Err(e) => geometry(image@) == Err::<Geometry, Seq<char>>(e@),
            },
    {
        let dos: [u8; 2] = [0x4d, 0x5a];
        assert(dos@ =~= dos_signature());
        if !bytes::starts_with(image, dos.as_slice()) {
            return Err("not a PE image: no MZ signature".to_owned());
        }
        if image.len() < E_LFANEW + 4 {
            return Err(ends_inside(E_LFANEW as u128));
        }
        let pe: usize = bytes::get_le32(image, E_LFANEW) as usize;
        let signature: [u8; 4] = [0x50, 0x45, 0, 0];
        assert(signature@ =~= pe_signature());
        if !bytes::bytes_at(image, pe, signature.as_slice()) {
            let mut m = "not a PE image: no PE signature at ".to_owned();
            m.append(text::hex_text(pe as u128).as_str());
            return Err(m);
        }
        let coff: usize = pe + 4;
        let opt: usize = coff + COFF_HEADER;
        if image.len() < coff + NUMBER_OF_SECTIONS + 2 {
            return Err(ends_inside((coff + NUMBER_OF_SECTIONS) as u128));
        }
        if image.len() < coff + SIZE_OF_OPTIONAL_HEADER + 2 {
            return Err(ends_inside((coff + SIZE_OF_OPTIONAL_HEADER) as u128));
        }
        if image.len() < opt + OPT_MAGIC + 2 {
            return Err(ends_inside((opt + OPT_MAGIC) as u128));
        }
        let magic: u16 = bytes::get_le16(image, opt + OPT_MAGIC);
        if magic != PE32PLUS {
            let mut m = "the PE image is not PE32+ (optional header magic ".to_owned();
            m.append(text::hex_text(magic as u128).as_str());
            m.append("); only the 64-bit form is edited here");
            return Err(m);
        }
        if image.len() < opt + SECTION_ALIGNMENT + 4 {
            return Err(ends_inside((opt + SECTION_ALIGNMENT) as u128));
        }
        if image.len() < opt + FILE_ALIGNMENT + 4 {
            return Err(ends_inside((opt + FILE_ALIGNMENT) as u128));
        }
        if image.len() < opt + SIZE_OF_IMAGE + 4 {
            return Err(ends_inside((opt + SIZE_OF_IMAGE) as u128));
        }
        if image.len() < opt + SIZE_OF_HEADERS + 4 {
            return Err(ends_inside((opt + SIZE_OF_HEADERS) as u128));
        }
        Ok(
            Headers {
                pe,
                sections: bytes::get_le16(image, coff + NUMBER_OF_SECTIONS) as usize,
                section_table: opt + bytes::get_le16(image, coff + SIZE_OF_OPTIONAL_HEADER) as usize,
                section_alignment: bytes::get_le32(image, opt + SECTION_ALIGNMENT),
                file_alignment: bytes::get_le32(image, opt + FILE_ALIGNMENT),
                size_of_image: bytes::get_le32(image, opt + SIZE_OF_IMAGE),
                size_of_headers: bytes::get_le32(image, opt + SIZE_OF_HEADERS),
            },
        )
    }

    /// The name, address and size of each section, in table order.
    pub fn sections(&self, image: &[u8]) -> (r: Result<Vec<(String, u32, u32)>, String>)
        ensures
            match r {
                Ok(v) => listed(image@, self@.table, self@.sections, 0) == Ok::<Seq<Section>, Seq<char>>(
                    sections_of(v@),
                ),
                Err(e) => listed(image@, self@.table, self@.sections, 0) == Err::<Seq<Section>, Seq<char>>(e@),
            },
    {
        let ghost (table, n) = (self@.table, self@.sections);
        let mut out: Vec<(String, u32, u32)> = Vec::new();
        let mut i: usize = 0;
        assert(sections_of(out@) =~= seq![]);
        assert(match listed(image@, table, n, 0) {
            Ok(rest) => sections_of(out@) + rest =~= rest,
            Err(_) => true,
        });
        while i < self.sections
            invariant
                i <= self.sections,
                table == self.section_table,
                n == self.sections,
                listed(image@, table, n, 0) == match listed(image@, table, n, i as int) {
                    Ok(rest) => Ok::<Seq<Section>, Seq<char>>(sections_of(out@) + rest),
                    Err(e) => Err(e),
                },
            decreases self.sections - i,
        {
            let h: u128 = self.section_table as u128 + i as u128 * SECTION_HEADER as u128;
            if h + 8 > image.len() as u128 {
                let mut m = "the PE image ends inside section header ".to_owned();
                m.append(text::int_text(i as i128).as_str());
                return Err(m);
            }
            if h + 16 > image.len() as u128 {
                return Err(ends_inside(h + 12));
            }
            let p: usize = h as usize;
            let ghost len = image.len();
            let name = name_text(image, p);
            let address: u32 = bytes::get_le32(image, p + SEC_VIRTUAL_ADDRESS);
            let size: u32 = bytes::get_le32(image, p + SEC_VIRTUAL_SIZE);
            let ghost before = sections_of(out@);
            let ghost added = Section { name: name@, address: address as int, size: size as int };
            assert(added == section_at(image@, h as int));
            proof {
                if listed(image@, table, n, i + 1) is Ok {
                    let rest = listed(image@, table, n, i + 1)->Ok_0;
                    assert(before + (seq![added] + rest) =~= before.push(added) + rest);
                }
            }
            out.push((name, address, size));
            assert(sections_of(out@) =~= before.push(added));
            i += 1;
        }
        assert(sections_of(out@) + seq![] =~= sections_of(out@));
        Ok(out)
    }
}

// ---- a new section ----

/// Whether exactly one bit of `x` is set.
pub open spec fn one_bit(x: u64) -> bool {
    x != 0 && x & ((x - 1) as u64) == 0
}

/// The least multiple of `to` that is no less than `v`.
pub open spec fn up(v: int, to: int) -> int {
    (v + to - 1) / to * to
}

/// `v` rounded up to a multiple of `to`, which is a power of two.
pub open spec fn aligned(v: int, to: int) -> Result<int, Seq<char>> {
    if !one_bit(to as u64) {
        Err("alignment "@ + text::hexadecimal(to) + " in the PE headers is not a power of two"@)
    } else if v + to - 1 > u64::MAX {
        Err(text::hexadecimal(v) + " rounded up to "@ + text::hexadecimal(to) + " overflows"@)
    } else {
        Ok(up(v, to))
    }
}

fn align_up(v: u64, to: u64) -> (r: Result<u64, String>)
    ensures
        match r {
            Ok(x) => aligned(v as int, to as int) == Ok::<int, Seq<char>>(x as int),
            Err(e) => aligned(v as int, to as int) == Err::<int, Seq<char>>(e@),
        },
{
    if to == 0 || to & (to - 1) != 0 {
        let mut m = "alignment ".to_owned();
        m.append(text::hex_text(to as u128).as_str());
        m.append(" in the PE headers is not a power of two");
        return Err(m);
    }
    if v > u64::MAX - (to - 1) {
        let mut m = text::hex_text(v as u128);
        m.append(" rounded up to ");
        m.append(text::hex_text(to as u128).as_str());
        m.append(" overflows");
        return Err(m);
    }
    let s: u64 = v + (to - 1);
    assert(s / to * to <= s) by (nonlinear_arith)
        requires
            to > 0,
            s >= 0,
    ;
    Ok(s / to * to)
}

/// Whether a section of that name is listed.
pub open spec fn has_section(all: Seq<Section>, name: Seq<char>) -> bool {
    exists|i: int| 0 <= i < all.len() && (#[trigger] all[i]).name == name
}

/// Where the table ends with one section more.
pub open spec fn table_end(h: Geometry) -> int {
    h.table + (h.sections + 1) * SECTION_HEADER
}

/// The headers of an image that another section called `name` can be added to.
pub open spec fn extendable(d: Seq<u8>, name: Seq<char>) -> Result<Geometry, Seq<char>> {
    match geometry(d) {
        Err(e) => Err(e),
        Ok(h) => {
            let size = vstd::utf8::encode_utf8(name).len();
            if size > 8 {
                Err(
                    "a PE section name is at most 8 bytes; `"@ + name + "` is "@ + text::decimal(size as int),
                )
            } else {
                match listed(d, h.table, h.sections, 0) {
                    Err(e) => Err(e),
                    Ok(all) => if has_section(all, name) {
                        Err("the PE image already has a `"@ + name + "` section"@)
                    } else if table_end(h) > h.size_of_headers {
                        Err(
                            "no room in the PE headers for another section: the table would end at "@
                                + text::hexadecimal(table_end(h)) + ", past SizeOfHeaders "@ + text::hexadecimal(
                                h.size_of_headers,
                            ),
                        )
                    } else {
                        Ok(h)
                    },
                }
            }
        },
    }
}

/// Where a new section goes: in the file and, once loaded, in memory.
pub ghost struct Place {
    pub raw_pointer: int,
    pub raw_size: int,
    pub rva: int,
    pub size_of_image: int,
}

/// Where `size` bytes go behind an image of `len` bytes.
pub open spec fn room(h: Geometry, len: int, size: int) -> Result<Place, Seq<char>> {
    match aligned(len, h.file_alignment) {
        Err(e) => Err(e),
        Ok(raw_pointer) => match aligned(size, h.file_alignment) {
            Err(e) => Err(e),
            Ok(raw_size) => match aligned(h.size_of_image, h.section_alignment) {
                Err(e) => Err(e),
                Ok(rva) => if rva + size > u64::MAX {
                    Err("the PE image would extend past the end of its address space"@)
                } else {
                    match aligned(rva + size, h.section_alignment) {
                        Err(e) => Err(e),
                        Ok(size_of_image) => Ok(Place { raw_pointer, raw_size, rva, size_of_image }),
                    }
                },
            },
        },
    }
}

/// Why `v` does not go into a 32-bit header field, if it does not.
pub open spec fn misfit(v: int, what: Seq<char>) -> Option<Seq<char>> {
    if v > u32::MAX {
        Some(what + " "@ + text::hexadecimal(v) + " does not fit a PE header field"@)
    } else {
        None
    }
}

/// Why a new section cannot be described in the headers, if it cannot.
pub open spec fn undescribed(p: Place, size: int) -> Option<Seq<char>> {
    if misfit(size, "a section's size"@) is Some {
        misfit(size, "a section's size"@)
    } else if misfit(p.rva, "a section's address"@) is Some {
        misfit(p.rva, "a section's address"@)
    } else if misfit(p.raw_size, "a section's raw size"@) is Some {
        misfit(p.raw_size, "a section's raw size"@)
    } else if misfit(p.raw_pointer, "a section's file offset"@) is Some {
        misfit(p.raw_pointer, "a section's file offset"@)
    } else {
        misfit(p.size_of_image, "SizeOfImage"@)
    }
}

/// Where a new section goes, or why it cannot be added.
pub open spec fn placed(d: Seq<u8>, name: Seq<char>, size: int) -> Result<(Geometry, Place), Seq<char>> {
    match extendable(d, name) {
        Err(e) => Err(e),
        Ok(h) => match room(h, d.len() as int, size) {
            Err(e) => Err(e),
            Ok(p) => match undescribed(p, size) {
                Some(e) => Err(e),
                None => Ok((h, p)),
            },
        },
    }
}

/// The name as it stands in a header.
pub open spec fn name_field(name: Seq<char>) -> Seq<u8> {
    let b = vstd::utf8::encode_utf8(name);
    Seq::new(
        8,
        |i: int|
            if i < b.len() {
                b[i]
            } else {
                0u8
            },
    )
}

/// The header of a new section.
#[verifier::opaque]
pub open spec fn section_header(name: Seq<char>, size: int, p: Place, characteristics: int) -> Seq<u8> {
    name_field(name) + bytes::le32_bytes(size) + bytes::le32_bytes(p.rva) + bytes::le32_bytes(p.raw_size)
        + bytes::le32_bytes(p.raw_pointer) + bytes::zeros(12) + bytes::le32_bytes(characteristics)
}

/// An image with `data` behind it, before its headers are written.
pub open spec fn lengthened(d: Seq<u8>, data: Seq<u8>, p: Place) -> Seq<u8> {
    d + bytes::zeros((p.raw_pointer - d.len()) as nat) + data + bytes::zeros((p.raw_size - data.len()) as nat)
}

/// An image with a new section.
#[verifier::opaque]
pub open spec fn extended(
    d: Seq<u8>,
    name: Seq<char>,
    data: Seq<u8>,
    characteristics: int,
    h: Geometry,
    p: Place,
) -> Seq<u8> {
    let header = section_header(name, data.len() as int, p, characteristics);
    let with_header = bytes::splice(lengthened(d, data, p), h.table + h.sections * SECTION_HEADER, header);
    let counted = bytes::splice(
        with_header,
        h.pe + 4 + NUMBER_OF_SECTIONS,
        bytes::le16_bytes((h.sections + 1) % 0x1_0000),
    );
    bytes::splice(counted, h.pe + 4 + COFF_HEADER + SIZE_OF_IMAGE, bytes::le32_bytes(p.size_of_image))
}

/// Whether what a new section would need is within reach: its header within the file, and the
/// whole file within memory.
pub open spec fn reachable(d: Seq<u8>, name: Seq<char>, size: int) -> bool {
    match placed(d, name, size) {
        Err(_) => true,
        Ok((h, p)) => table_end(h) <= p.raw_pointer + p.raw_size <= usize::MAX,
    }
}

fn has_name(all: &Vec<(String, u32, u32)>, name: &str) -> (r: bool)
    ensures
        r == has_section(sections_of(all@), name@),
{
    let mut i: usize = 0;
    while i < all.len()
        invariant
            i <= all@.len(),
            forall|k: int| 0 <= k < i ==> (#[trigger] sections_of(all@)[k]).name != name@,
        decreases all@.len() - i,
    {
        assert(sections_of(all@)[i as int].name == all@[i as int].0@);
        if text::same(all[i].0.as_str(), name) {
            return true;
        }
        i += 1;
    }
    false
}

fn check_extendable(image: &[u8], name: &str) -> (r: Result<Headers, String>)
    requires
        image@.len() + 0x1_0000 <= usize::MAX,
    ensures
        match r {
            Ok(h) => extendable(image@, name@) == Ok::<Geometry, Seq<char>>(h@),
            Err(e) => extendable(image@, name@) == Err::<Geometry, Seq<char>>(e@),
        },
{
    match Headers::parse(image) {
        Err(e) => Err(e),
        Ok(h) => {
            let size: usize = name.as_bytes().len();
            if size > 8 {
                let mut m = "a PE section name is at most 8 bytes; `".to_owned();
                m.append(name);
                m.append("` is ");
                m.append(text::int_text(size as i128).as_str());
                return Err(m);
            }
            match h.sections(image) {
                Err(e) => Err(e),
                Ok(all) => {
                    if has_name(&all, name) {
                        let mut m = "the PE image already has a `".to_owned();
                        m.append(name);
                        m.append("` section");
                        return Err(m);
                    }
                    let end: u128 = h.section_table as u128 + (h.sections as u128 + 1) * SECTION_HEADER as u128;
                    if end > h.size_of_headers as u128 {
                        let mut m =
                            "no room in the PE headers for another section: the table would end at ".to_owned();
                        m.append(text::hex_text(end).as_str());
                        m.append(", past SizeOfHeaders ");
                        m.append(text::hex_text(h.size_of_headers as u128).as_str());
                        return Err(m);
                    }
                    Ok(h)
                },
            }
        },
    }
}

/// Where a new section goes.
struct Room {
    raw_pointer: u64,
    raw_size: u64,
    rva: u64,
    size_of_image: u64,
}

impl View for Room {
    type V = Place;

    closed spec fn view(&self) -> Place {
        Place {
            raw_pointer: self.raw_pointer as int,
            raw_size: self.raw_size as int,
            rva: self.rva as int,
            size_of_image: self.size_of_image as int,
        }
    }
}

fn find_room(h: &Headers, len: u64, size: u64) -> (r: Result<Room, String>)
    ensures
        match r {
            Ok(p) => room(h@, len as int, size as int) == Ok::<Place, Seq<char>>(p@),
            Err(e) => room(h@, len as int, size as int) == Err::<Place, Seq<char>>(e@),
        },
{
    let raw_pointer: u64 = match align_up(len, h.file_alignment as u64) {
        Ok(v) => v,
        Err(e) => {
            return Err(e);
        },
    };
    let raw_size: u64 = match align_up(size, h.file_alignment as u64) {
        Ok(v) => v,
        Err(e) => {
            return Err(e);
        },
    };
    let rva: u64 = match align_up(h.size_of_image as u64, h.section_alignment as u64) {
        Ok(v) => v,
        Err(e) => {
            return Err(e);
        },
    };
    if rva > u64::MAX - size {
        return Err("the PE image would extend past the end of its address space".to_owned());
    }
    match align_up(rva + size, h.section_alignment as u64) {
        Ok(size_of_image) => Ok(Room { raw_pointer, raw_size, rva, size_of_image }),
        Err(e) => Err(e),
    }
}

fn does_not_fit(v: u64, what: &str) -> (r: Option<String>)
    ensures
        match r {
            Some(e) => misfit(v as int, what@) == Some(e@),
            None => misfit(v as int, what@) == None::<Seq<char>>,
        },
{
    if v > u32::MAX as u64 {
        let mut m = what.to_owned();
        m.append(" ");
        m.append(text::hex_text(v as u128).as_str());
        m.append(" does not fit a PE header field");
        Some(m)
    } else {
        None
    }
}

fn cannot_describe(p: &Room, size: u64) -> (r: Option<String>)
    ensures
        match r {
            Some(e) => undescribed(p@, size as int) == Some(e@),
            None => undescribed(p@, size as int) == None::<Seq<char>>,
        },
{
    if let Some(e) = does_not_fit(size, "a section's size") {
        return Some(e);
    }
    if let Some(e) = does_not_fit(p.rva, "a section's address") {
        return Some(e);
    }
    if let Some(e) = does_not_fit(p.raw_size, "a section's raw size") {
        return Some(e);
    }
    if let Some(e) = does_not_fit(p.raw_pointer, "a section's file offset") {
        return Some(e);
    }
    does_not_fit(p.size_of_image, "SizeOfImage")
}

fn pad_to(v: &mut Vec<u8>, len: usize)
    requires
        old(v)@.len() <= len,
    ensures
        final(v)@ == old(v)@ + bytes::zeros((len - old(v)@.len()) as nat),
{
    let ghost before = v@;
    assert(v@ =~= before + bytes::zeros(0));
    while v.len() < len
        invariant
            before.len() <= v@.len() <= len,
            v@ == before + bytes::zeros((v@.len() - before.len()) as nat),
        decreases len - v@.len(),
    {
        v.push(0);
        assert(v@ =~= before + bytes::zeros((v@.len() - before.len()) as nat));
    }
}

fn make_header(name: &str, size: u32, p: &Room, characteristics: u32) -> (r: Vec<u8>)
    requires
        p.rva <= u32::MAX,
        p.raw_size <= u32::MAX,
        p.raw_pointer <= u32::MAX,
        vstd::utf8::encode_utf8(name@).len() <= 8,
    ensures
        r@ == section_header(name@, size as int, p@, characteristics as int),
{
    reveal(section_header);
    let mut v: Vec<u8> = Vec::new();
    bytes::push_all(&mut v, name.as_bytes());
    pad_to(&mut v, 8);
    assert(v@ =~= name_field(name@));
    bytes::push_le32(&mut v, size);
    bytes::push_le32(&mut v, p.rva as u32);
    bytes::push_le32(&mut v, p.raw_size as u32);
    bytes::push_le32(&mut v, p.raw_pointer as u32);
    pad_to(&mut v, 36);
    bytes::push_le32(&mut v, characteristics);
    v
}

/// Append `data` to `image` as a new section called `name`, and return the new image and the
/// address the section will have once the firmware has loaded it.
///
/// The address is a relative virtual address: what to add to the image base that the firmware
/// chooses. The linker leaves the headers padded to SizeOfHeaders; growing them instead would mean
/// moving every section's raw data, so an image without room is refused.
pub fn add_section(image: &[u8], name: &str, data: &[u8], characteristics: u32) -> (r: Result<(Vec<u8>, u32), String>)
    requires
        image@.len() + 0x1_0000 <= usize::MAX,
        reachable(image@, name@, data@.len() as int),
    ensures
        match placed(image@, name@, data@.len() as int) {
            Ok((h, p)) => r is Ok && r->Ok_0.0@ == extended(image@, name@, data@, characteristics as int, h, p)
                && r->Ok_0.1 == p.rva,
            Err(e) => r is Err && r->Err_0@ == e,
        },
{
    let h = match check_extendable(image, name) {
        Ok(h) => h,
        Err(e) => {
            return Err(e);
        },
    };
    let p = match find_room(&h, image.len() as u64, data.len() as u64) {
        Ok(p) => p,
        Err(e) => {
            return Err(e);
        },
    };
    if let Some(e) = cannot_describe(&p, data.len() as u64) {
        return Err(e);
    }
    proof {
        up_is_above(image@.len() as int, h.file_alignment as int);
        up_is_above(data@.len() as int, h.file_alignment as int);
        geometry_is_inside(image@);
    }
    Ok((write_section(image, name, data, characteristics, &h, &p), p.rva as u32))
}

fn write_section(image: &[u8], name: &str, data: &[u8], characteristics: u32, h: &Headers, p: &Room) -> (r: Vec<u8>)
    requires
        vstd::utf8::encode_utf8(name@).len() <= 8,
        image@.len() <= p.raw_pointer <= u32::MAX,
        data@.len() <= p.raw_size <= u32::MAX,
        p.rva <= u32::MAX,
        p.size_of_image <= u32::MAX,
        table_end(h@) <= p.raw_pointer + p.raw_size <= usize::MAX,
        h.pe + 88 <= image@.len(),
        h.sections <= 0xffff,
    ensures
        r@ == extended(image@, name@, data@, characteristics as int, h@, p@),
{
    reveal(extended);
    let ghost n = image.len();
    let mut out: Vec<u8> = Vec::new();
    bytes::push_all(&mut out, image);
    pad_to(&mut out, p.raw_pointer as usize);
    bytes::push_all(&mut out, data);
    pad_to(&mut out, (p.raw_pointer + p.raw_size) as usize);
    assert(out@ =~= lengthened(image@, data@, p@));
    let head: usize = h.section_table + h.sections * SECTION_HEADER;
    let header = make_header(name, data.len() as u32, p, characteristics);
    assert(header@.len() == 40) by {
        reveal(section_header);
    }
    bytes::copy_at(&mut out, head, header.as_slice());
    let count: u16 = ((h.sections + 1) % 0x1_0000) as u16;
    bytes::put_le16(&mut out, h.pe + 4 + NUMBER_OF_SECTIONS, count);
    bytes::put_le32(&mut out, h.pe + 4 + COFF_HEADER + SIZE_OF_IMAGE, p.size_of_image as u32);
    out
}

proof fn up_is_above(v: int, to: int)
    requires
        v >= 0,
    ensures
        one_bit(to as u64) && 0 <= to <= u64::MAX ==> v <= up(v, to) && up(v, to) % to == 0,
{
    if one_bit(to as u64) && 0 <= to <= u64::MAX {
        assert(to > 0);
        let s = v + to - 1;
        vstd::arithmetic::div_mod::lemma_fundamental_div_mod(s, to);
        vstd::arithmetic::mul::lemma_mul_is_commutative(s / to, to);
        vstd::arithmetic::div_mod::lemma_mod_multiples_basic(s / to, to);
    }
}

proof fn geometry_is_inside(d: Seq<u8>)
    ensures
        geometry(d) is Ok ==> 0 <= geometry(d)->Ok_0.pe && geometry(d)->Ok_0.pe + 88 <= d.len() && 0
            <= geometry(d)->Ok_0.sections <= 0xffff && 0 <= geometry(d)->Ok_0.size_of_image && 0 <= geometry(
            d,
        )->Ok_0.section_alignment <= u32::MAX && 0 <= geometry(d)->Ok_0.file_alignment <= u32::MAX,
{
}

/// An added section is where the headers say it is. Once its optional header is long enough to
/// hold the fields that are read, and the section count is not part of the DOS header's pointer or
/// at its largest, the new image reads as the old one with one section more, last in the table,
/// under its name, at the returned address and with the size of its data; its bytes stand where
/// the file says; addresses and offsets are multiples of the alignments; and SizeOfImage covers it.
pub proof fn added_sections_are_where_the_headers_say(
    d: Seq<u8>,
    name: Seq<char>,
    data: Seq<u8>,
    characteristics: int,
)
    requires
        placed(d, name, data.len() as int) is Ok,
        ({
            let h = placed(d, name, data.len() as int)->Ok_0.0;
            &&& h.table >= h.pe + 4 + COFF_HEADER + SIZE_OF_HEADERS + 4
            &&& h.pe + 4 + NUMBER_OF_SECTIONS + 2 <= E_LFANEW || h.pe + 4 + NUMBER_OF_SECTIONS >= E_LFANEW + 4
            &&& h.sections + 1 < 0x1_0000
            &&& table_end(h) <= d.len()
        }),
    ensures
        ({
            let (h, p) = placed(d, name, data.len() as int)->Ok_0;
            let after = extended(d, name, data, characteristics, h, p);
            let named = Section { name: shown(name_field(name)), address: p.rva, size: data.len() as int };
            &&& geometry(after) == Ok::<Geometry, Seq<char>>(
                (Geometry { sections: h.sections + 1, size_of_image: p.size_of_image, ..h }),
            )
            &&& listed(after, h.table, h.sections + 1, 0) == Ok::<Seq<Section>, Seq<char>>(
                listed(d, h.table, h.sections, 0)->Ok_0.push(named),
            )
            &&& bytes::le32(after, h.table + h.sections * SECTION_HEADER + SEC_POINTER_TO_RAW_DATA) == p.raw_pointer
            &&& after.subrange(p.raw_pointer, p.raw_pointer + data.len()) == data
            &&& p.raw_pointer % h.file_alignment == 0
            &&& p.rva % h.section_alignment == 0
            &&& p.size_of_image % h.section_alignment == 0
            &&& p.rva + data.len() <= p.size_of_image
        }),
{
    let (h, p) = placed(d, name, data.len() as int)->Ok_0;
    let size = data.len() as int;
    let after = extended(d, name, data, characteristics, h, p);
    let head = h.table + h.sections * SECTION_HEADER;
    geometry_is_inside(d);
    up_is_above(d.len() as int, h.file_alignment);
    up_is_above(size, h.file_alignment);
    up_is_above(h.size_of_image, h.section_alignment);
    up_is_above(p.rva + size, h.section_alignment);
    extension_keeps(d, name, data, characteristics, h, p);
    headers_follow(d, after, h, p);
    header_reads_back(name, size, p, characteristics, after, head);
    listing_grows(d, after, h, 0);
}

/// Adding a section changes the count of sections and SizeOfImage, writes the new header, and
/// leaves every other byte of the image as it was: the time stamp and the checksum among them.
pub proof fn adding_a_section_touches_nothing_else(
    d: Seq<u8>,
    name: Seq<char>,
    data: Seq<u8>,
    characteristics: int,
    i: int,
)
    requires
        placed(d, name, data.len() as int) is Ok,
        0 <= i < d.len(),
        ({
            let h = placed(d, name, data.len() as int)->Ok_0.0;
            let head = h.table + h.sections * SECTION_HEADER;
            &&& h.table >= h.pe + 4 + COFF_HEADER + SIZE_OF_HEADERS + 4
            &&& h.sections + 1 < 0x1_0000
            &&& table_end(h) <= d.len()
            &&& !(h.pe + 4 + NUMBER_OF_SECTIONS <= i < h.pe + 4 + NUMBER_OF_SECTIONS + 2)
            &&& !(h.pe + 4 + COFF_HEADER + SIZE_OF_IMAGE <= i < h.pe + 4 + COFF_HEADER + SIZE_OF_IMAGE + 4)
            &&& !(head <= i < head + SECTION_HEADER)
        }),
    ensures
        ({
            let (h, p) = placed(d, name, data.len() as int)->Ok_0;
            extended(d, name, data, characteristics, h, p)[i] == d[i]
        }),
{
    let (h, p) = placed(d, name, data.len() as int)->Ok_0;
    geometry_is_inside(d);
    up_is_above(d.len() as int, h.file_alignment);
    up_is_above(data.len() as int, h.file_alignment);
    up_is_above(h.size_of_image, h.section_alignment);
    up_is_above(p.rva + data.len(), h.section_alignment);
    extension_keeps(d, name, data, characteristics, h, p);
}

proof fn extension_keeps(d: Seq<u8>, name: Seq<char>, data: Seq<u8>, characteristics: int, h: Geometry, p: Place)
    requires
        h.pe >= 0,
        h.pe + 88 <= h.table,
        table_end(h) <= d.len() <= p.raw_pointer,
        data.len() <= p.raw_size,
        0 <= h.sections < 0xffff,
        0 <= p.size_of_image <= u32::MAX,
    ensures
        ({
            let after = extended(d, name, data, characteristics, h, p);
            let header = section_header(name, data.len() as int, p, characteristics);
            let head = h.table + h.sections * SECTION_HEADER;
            &&& after.len() == p.raw_pointer + p.raw_size
            &&& after.subrange(p.raw_pointer, p.raw_pointer + data.len()) == data
            &&& forall|i: int|
                0 <= i < d.len() && !(head <= i < head + 40) && !(h.pe + 6 <= i < h.pe + 8) && !(h.pe + 80 <= i < h.pe
                    + 84) ==> after[i] == #[trigger] d[i]
            &&& forall|i: int| head <= i < head + 40 ==> #[trigger] after[i] == header[i - head]
            &&& bytes::le16(after, h.pe + 6) == h.sections + 1
            &&& bytes::le32(after, h.pe + 80) == p.size_of_image
        }),
{
    reveal(extended);
    let after = extended(d, name, data, characteristics, h, p);
    let header = section_header(name, data.len() as int, p, characteristics);
    let long = lengthened(d, data, p);
    let head = h.table + h.sections * SECTION_HEADER;
    assert(header.len() == 40) by {
        reveal(section_header);
    }
    assert(long.len() == p.raw_pointer + p.raw_size);
    assert(forall|i: int| 0 <= i < d.len() ==> long[i] == #[trigger] d[i]);
    assert(after.subrange(p.raw_pointer, p.raw_pointer + data.len()) =~= data);
    bytes::le16_of_bytes(h.sections + 1);
    bytes::le32_of_bytes(p.size_of_image);
    let (count, size) = (bytes::le16_bytes(h.sections + 1), bytes::le32_bytes(p.size_of_image));
    assert(after[h.pe + 6] == count[0] && after[h.pe + 7] == count[1]);
    assert(after[h.pe + 80] == size[0] && after[h.pe + 81] == size[1] && after[h.pe + 82] == size[2] && after[h.pe + 83]
        == size[3]);
}

proof fn headers_follow(d: Seq<u8>, after: Seq<u8>, h: Geometry, p: Place)
    requires
        geometry(d) == Ok::<Geometry, Seq<char>>(h),
        after.len() >= d.len(),
        h.table >= h.pe + 88,
        h.pe + 8 <= 0x3c || h.pe + 6 >= 0x40,
        h.sections >= 0,
        ({
            let head = h.table + h.sections * SECTION_HEADER;
            forall|i: int|
                0 <= i < d.len() && !(head <= i < head + 40) && !(h.pe + 6 <= i < h.pe + 8) && !(h.pe + 80 <= i < h.pe
                    + 84) ==> after[i] == #[trigger] d[i]
        }),
        bytes::le16(after, h.pe + 6) == h.sections + 1,
        bytes::le32(after, h.pe + 80) == p.size_of_image,
    ensures
        geometry(after) == Ok::<Geometry, Seq<char>>(
            (Geometry { sections: h.sections + 1, size_of_image: p.size_of_image, ..h }),
        ),
{
    assert(after.subrange(0, 2) =~= d.subrange(0, 2));
    assert(bytes::le32(after, 0x3c) == bytes::le32(d, 0x3c));
    assert(after.subrange(h.pe, h.pe + 4) =~= d.subrange(h.pe, h.pe + 4));
}

proof fn header_reads_back(name: Seq<char>, size: int, p: Place, characteristics: int, after: Seq<u8>, head: int)
    requires
        0 <= size <= u32::MAX,
        0 <= p.rva <= u32::MAX,
        0 <= p.raw_pointer <= u32::MAX,
        0 <= head,
        head + 40 <= after.len(),
        forall|i: int|
            head <= i < head + 40 ==> #[trigger] after[i] == section_header(name, size, p, characteristics)[i - head],
    ensures
        section_at(after, head) == (Section { name: shown(name_field(name)), address: p.rva, size }),
        bytes::le32(after, head + SEC_POINTER_TO_RAW_DATA) == p.raw_pointer,
{
    reveal(section_header);
    bytes::le32_of_bytes(size);
    bytes::le32_of_bytes(p.rva);
    bytes::le32_of_bytes(p.raw_pointer);
    assert(after.subrange(head, head + 8) =~= name_field(name));
}

proof fn listing_grows(d: Seq<u8>, after: Seq<u8>, h: Geometry, i: int)
    requires
        0 <= i <= h.sections,
        after.len() >= d.len(),
        listed(d, h.table, h.sections, i) is Ok,
        h.table >= h.pe + 88,
        h.pe >= 0,
        table_end(h) <= d.len(),
        ({
            let head = h.table + h.sections * SECTION_HEADER;
            forall|k: int|
                0 <= k < d.len() && !(head <= k < head + 40) && !(h.pe + 6 <= k < h.pe + 8) && !(h.pe + 80 <= k < h.pe
                    + 84) ==> after[k] == #[trigger] d[k]
        }),
    ensures
        listed(after, h.table, h.sections + 1, i) == Ok::<Seq<Section>, Seq<char>>(
            listed(d, h.table, h.sections, i)->Ok_0.push(section_at(after, h.table + h.sections * SECTION_HEADER)),
        ),
    decreases h.sections - i,
{
    let last = section_at(after, h.table + h.sections * SECTION_HEADER);
    if i < h.sections {
        listing_grows(d, after, h, i + 1);
        let at = h.table + i * SECTION_HEADER;
        assert(after.subrange(at, at + 8) =~= d.subrange(at, at + 8));
        assert(section_at(after, at) == section_at(d, at));
        let rest = listed(d, h.table, h.sections, i + 1)->Ok_0;
        assert(seq![section_at(d, at)] + rest.push(last) =~= (seq![section_at(d, at)] + rest).push(last));
    } else {
        assert(listed(after, h.table, h.sections + 1, i + 1) == Ok::<Seq<Section>, Seq<char>>(seq![]));
        assert(seq![last] + Seq::<Section>::empty() =~= Seq::<Section>::empty().push(last));
    }
}

// ---- words behind a marker ----

/// The bytes of the first `n` values, eight each.
pub open spec fn words_bytes(values: Seq<u64>, n: nat) -> Seq<u8>
    decreases n,
{
    if n == 0 {
        seq![]
    } else {
        words_bytes(values, (n - 1) as nat) + bytes::le64_bytes(values[n - 1] as int)
    }
}

/// Where the words behind the one marker go.
pub open spec fn words_place(d: Seq<u8>, marker: Seq<u8>, n: int) -> Result<int, Seq<char>> {
    let found = bytes::places(d, marker, 0);
    let shown = text::decoded(marker);
    if found.len() == 0 {
        Err("the image carries no `"@ + shown + "` marker"@)
    } else if found.len() > 1 {
        Err("the image carries "@ + text::decimal(found.len() as int) + " `"@ + shown + "` markers; it must carry one"@)
    } else if found[0] + marker.len() + n * 8 > d.len() {
        Err("the `"@ + shown + "` marker is too close to the end of the image"@)
    } else {
        Ok(found[0] + marker.len())
    }
}

/// Write `values` into `image` behind the one occurrence of `marker`, as little-endian 64-bit
/// words. An image without exactly one marker, or without room behind it, is left as it is.
///
/// The stub declares the marker and the words behind it as a static, and reads them at run time.
/// Two occurrences mean that the marker is in the stub's own search code as well as in its data;
/// none, that it is in neither. Both are build failures.
pub fn stamp(image: &mut Vec<u8>, marker: &[u8], values: &[u64]) -> (r: Result<(), String>)
    requires
        marker@.len() > 0,
    ensures
        match words_place(old(image)@, marker@, values@.len() as int) {
            Ok(at) => r is Ok && final(image)@ == bytes::splice(
                old(image)@,
                at,
                words_bytes(values@, values@.len()),
            ),
            Err(e) => r is Err && r->Err_0@ == e && final(image)@ == old(image)@,
        },
{
    let found = bytes::all_places(image.as_slice(), marker);
    let shown = text::decode(marker);
    let ghost want = bytes::places(image@, marker@, 0);
    assert(bytes::places_of(found@) == want);
    if found.len() == 0 {
        let mut m = "the image carries no `".to_owned();
        m.append(shown.as_str());
        m.append("` marker");
        return Err(m);
    }
    if found.len() > 1 {
        let mut m = "the image carries ".to_owned();
        m.append(text::int_text(found.len() as i128).as_str());
        m.append(" `");
        m.append(shown.as_str());
        m.append("` markers; it must carry one");
        return Err(m);
    }
    assert(bytes::places_of(found@)[0] == found@[0]);
    if found[0] as u128 + marker.len() as u128 + values.len() as u128 * 8 > image.len() as u128 {
        let mut m = "the `".to_owned();
        m.append(shown.as_str());
        m.append("` marker is too close to the end of the image");
        return Err(m);
    }
    let ghost n = image.len();
    let start: usize = found[0] + marker.len();
    let mut words: Vec<u8> = Vec::new();
    let mut i: usize = 0;
    assert(words@ =~= words_bytes(values@, 0));
    while i < values.len()
        invariant
            i <= values@.len(),
            words@.len() == 8 * i,
            words@ == words_bytes(values@, i as nat),
        decreases values@.len() - i,
    {
        bytes::push_le64(&mut words, values[i]);
        i += 1;
    }
    bytes::copy_at(image, start, words.as_slice());
    Ok(())
}

/// Stamped words read back: behind the marker stands each value in its turn.
pub proof fn stamped_words_read_back(d: Seq<u8>, marker: Seq<u8>, values: Seq<u64>, i: int)
    requires
        words_place(d, marker, values.len() as int) is Ok,
        0 <= i < values.len(),
        marker.len() > 0,
    ensures
        ({
            let at = words_place(d, marker, values.len() as int)->Ok_0;
            let after = bytes::splice(d, at, words_bytes(values, values.len()));
            bytes::le64(after, at + 8 * i) == values[i]
        }),
{
    let at = words_place(d, marker, values.len() as int)->Ok_0;
    let all = words_bytes(values, values.len());
    let after = bytes::splice(d, at, all);
    words_hold(values, values.len(), i);
    bytes::le64_of_bytes(values[i] as int);
    let word = bytes::le64_bytes(values[i] as int);
    assert(all.subrange(8 * i, 8 * i + 8) == word);
    places_natural(d, marker, 0);
    assert forall|k: int| 0 <= k < 8 implies after[at + 8 * i + k] == #[trigger] word[k] by {
        assert(all.subrange(8 * i, 8 * i + 8)[k] == word[k]);
    }
    assert(word[0] == after[at + 8 * i] && word[1] == after[at + 8 * i + 1] && word[2] == after[at + 8 * i + 2]
        && word[3] == after[at + 8 * i + 3] && word[4] == after[at + 8 * i + 4] && word[5] == after[at + 8 * i + 5]
        && word[6] == after[at + 8 * i + 6] && word[7] == after[at + 8 * i + 7]);
}

proof fn places_natural(hay: Seq<u8>, needle: Seq<u8>, i: int)
    requires
        i >= 0,
    ensures
        bytes::places(hay, needle, i).len() > 0 ==> bytes::places(hay, needle, i)[0] >= 0,
    decreases hay.len() - i,
{
    if i < hay.len() && i + needle.len() <= hay.len() {
        places_natural(hay, needle, i + 1);
    }
}

proof fn words_hold(values: Seq<u64>, n: nat, i: int)
    requires
        0 <= i < n <= values.len(),
    ensures
        words_bytes(values, n).len() == 8 * n,
        words_bytes(values, n).subrange(8 * i, 8 * i + 8) == bytes::le64_bytes(values[i] as int),
    decreases n,
{
    let before = words_bytes(values, (n - 1) as nat);
    let last = bytes::le64_bytes(values[n - 1] as int);
    if n > 1 {
        words_hold(values, (n - 1) as nat, 0);
    }
    if i < n - 1 {
        words_hold(values, (n - 1) as nat, i);
        assert((before + last).subrange(8 * i, 8 * i + 8) =~= before.subrange(8 * i, 8 * i + 8));
    } else {
        assert((before + last).subrange(8 * i, 8 * i + 8) =~= last);
    }
}

} // verus!
