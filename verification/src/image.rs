//! The bootable artifact, in the shape a machine's firmware wants.
//!
//! | Format   | What it is                                                                    |
//! |----------|-------------------------------------------------------------------------------|
//! | `elf`    | the stripped ELF, for anything that loads ELF                                 |
//! | `bin`    | a flat binary from the lowest load address, for execute-in-place and ROMs     |
//! | `uki`    | the EFI stub's own PE: kernel and command line in one application             |
//! | `uimage` | a U-Boot legacy header in front of `bin`, for boards whose firmware is U-Boot |
//!
//! Every format is a function of the linked image and the configuration alone, so two runs over
//! one tree write the same bytes.

use vstd::prelude::*;
use vstd::string::*;

use crate::bytes;
use crate::bootcfg;
use crate::crc;
use crate::kcfg::resolve::Resolution;
use crate::text;

verus! {

/// The formats there are.
pub const FORMATS: [&'static str; 4] = ["elf", "bin", "uki", "uimage"];

/// The largest flat binary written. The gap between the lowest and the highest load address is
/// filled with zeros, so an image whose segments are far apart becomes a file of that span:
/// refused rather than written.
pub const MAX_FLAT: u64 = 0x1000_0000;

/// `IH_MAGIC`.
pub const UIMAGE_MAGIC: u32 = 0x2705_1956;

/// `IH_TYPE_STANDALONE`: U-Boot copies the payload to the load address and jumps to the entry
/// point, handing over nothing.
pub const IH_TYPE_STANDALONE: u8 = 1;

/// `IH_OS_U_BOOT`: the operating-system field that U-Boot's own standalone applications use.
pub const IH_OS_U_BOOT: u8 = 17;

/// `IH_COMP_NONE`.
pub const IH_COMP_NONE: u8 = 0;

/// Bytes in the header.
pub const UIMAGE_HEADER: usize = 64;

/// A format of the image.
#[derive(Clone, Copy, Debug, PartialEq, Eq, Structural)]
pub enum Format {
    Elf,
    Bin,
    Uki,
    Uimage,
}

/// The format of a name.
pub open spec fn format_named(name: Seq<char>) -> Option<Format> {
    if name == "elf"@ {
        Some(Format::Elf)
    } else if name == "bin"@ {
        Some(Format::Bin)
    } else if name == "uki"@ {
        Some(Format::Uki)
    } else if name == "uimage"@ {
        Some(Format::Uimage)
    } else {
        None
    }
}

/// The format asked for, or why there is none.
pub open spec fn chosen(name: Option<Seq<char>>) -> Result<Format, Seq<char>> {
    match name {
        None => Err("`image` needs --format, one of elf, bin, uki, uimage"@),
        Some(n) => match format_named(n) {
            Some(f) => Ok(f),
            None => Err("unknown image format `"@ + n + "`; one of elf, bin, uki, uimage"@),
        },
    }
}

/// The format that `--format` names.
pub fn format_for(name: Option<&str>) -> (r: Result<Format, String>)
    ensures
        match r {
            Ok(f) => chosen(
                match name {
                    Some(n) => Some(n@),
                    None => None,
                },
            ) == Ok::<Format, Seq<char>>(f),
            Err(e) => chosen(
                match name {
                    Some(n) => Some(n@),
                    None => None,
                },
            ) == Err::<Format, Seq<char>>(e@),
        },
{
    match name {
        None => Err("`image` needs --format, one of elf, bin, uki, uimage".to_owned()),
        Some(n) => if text::same(n, "elf") {
            Ok(Format::Elf)
        } else if text::same(n, "bin") {
            Ok(Format::Bin)
        } else if text::same(n, "uki") {
            Ok(Format::Uki)
        } else if text::same(n, "uimage") {
            Ok(Format::Uimage)
        } else {
            let mut m = "unknown image format `".to_owned();
            m.append(n);
            m.append("`; one of elf, bin, uki, uimage");
            Err(m)
        },
    }
}

/// Whether a flat binary of `size` bytes may be kept.
pub fn check_flat(size: u64) -> (r: Result<(), String>)
    ensures
        match r {
            Ok(_) => size <= MAX_FLAT,
            Err(e) => size > MAX_FLAT && e@ == "a flat binary of this image would be "@ + text::decimal(size as int)
                + " bytes: its segments are too far apart for `bin`, which fills the gap with zeros. Use `elf`."@,
        },
{
    if size > MAX_FLAT {
        let mut m = "a flat binary of this image would be ".to_owned();
        m.append(text::int_text(size as i128).as_str());
        m.append(" bytes: its segments are too far apart for `bin`, which fills the gap with zeros. Use `elf`.");
        return Err(m);
    }
    Ok(())
}

/// Whether a configuration can be written in a format: the EFI stub's own image needs the stub.
pub fn check_format(format: Format, res: &Resolution) -> (r: Result<(), String>)
    ensures
        match r {
            Ok(_) => format == Format::Uki ==> bootcfg::on(res@, "KINBOOT_STUB"@),
            Err(e) => format == Format::Uki && !bootcfg::on(res@, "KINBOOT_STUB"@) && e@
                == "a UKI is the EFI stub's image, and this configuration has no stub; build with --set KINBOOT_STUB=y (x86_64)"@,
        },
{
    if format == Format::Uki && !res.is_on("KINBOOT_STUB") {
        return Err(
            "a UKI is the EFI stub's image, and this configuration has no stub; build with --set KINBOOT_STUB=y (x86_64)".to_owned(),
        );
    }
    Ok(())
}

/// The name of the file that a format is written to, beside the packaged image.
pub open spec fn file_of(format: Format) -> Seq<char> {
    match format {
        Format::Elf => "kintane.img.elf"@,
        Format::Bin => "kintane.bin"@,
        Format::Uki => "kintane.uki.efi"@,
        Format::Uimage => "kintane.uimage"@,
    }
}

/// The name of the file that a format is written to.
pub fn file_name(format: Format) -> (r: &'static str)
    ensures
        r@ == file_of(format),
{
    match format {
        Format::Elf => "kintane.img.elf",
        Format::Bin => "kintane.bin",
        Format::Uki => "kintane.uki.efi",
        Format::Uimage => "kintane.uimage",
    }
}

/// What is said of an image that was written: its format, in seven columns, its path and its size.
pub fn written_line(format: Format, path: &str, size: u64) -> (r: String)
    ensures
        r@ == (match format {
            Format::Elf => "  elf     "@,
            Format::Bin => "  bin     "@,
            Format::Uki => "  uki     "@,
            Format::Uimage => "  uimage  "@,
        }) + path@ + " ("@ + text::decimal(size as int) + " bytes)"@,
{
    let mut r = (match format {
        Format::Elf => "  elf     ",
        Format::Bin => "  bin     ",
        Format::Uki => "  uki     ",
        Format::Uimage => "  uimage  ",
    }).to_owned();
    r.append(path);
    r.append(" (");
    r.append(text::int_text(size as i128).as_str());
    r.append(" bytes)");
    r
}

// ---- entry point and load address ----

/// Why an image that ends too soon is refused.
pub open spec fn short() -> Seq<char> {
    "the kernel image is too short to be an ELF"@
}

/// What the header of an ELF says: whether it is a 64-bit one, the entry point, and where its
/// program headers stand, how far apart, and how many there are.
pub ghost struct Head {
    pub wide: bool,
    pub entry: int,
    pub start: int,
    pub step: int,
    pub count: int,
}

/// The header of an ELF.
pub open spec fn head(d: Seq<u8>) -> Result<Head, Seq<char>> {
    if !bytes::begins(d, seq![0x7fu8, 0x45, 0x4c, 0x46]) {
        Err("the kernel image is not an ELF"@)
    } else if d.len() <= 5 || d[5] != 1 {
        Err("only little-endian ELF images are packaged"@)
    } else if d[4] == 1 {
        if d.len() < 46 {
            Err(short())
        } else {
            Ok(
                Head {
                    wide: false,
                    entry: bytes::le32(d, 24),
                    start: bytes::le32(d, 28),
                    step: bytes::le16(d, 42),
                    count: bytes::le16(d, 44),
                },
            )
        }
    } else if d[4] == 2 {
        if d.len() < 58 {
            Err(short())
        } else {
            Ok(
                Head {
                    wide: true,
                    entry: bytes::le64(d, 24),
                    start: bytes::le64(d, 32),
                    step: bytes::le16(d, 54),
                    count: bytes::le16(d, 56),
                },
            )
        }
    } else {
        Err("the kernel image is neither a 32- nor a 64-bit ELF"@)
    }
}

/// The address or size at `i`, in the width of the file.
pub open spec fn word(d: Seq<u8>, wide: bool, i: int) -> Option<int> {
    if wide {
        if i + 8 <= d.len() {
            Some(bytes::le64(d, i))
        } else {
            None
        }
    } else if i + 4 <= d.len() {
        Some(bytes::le32(d, i))
    } else {
        None
    }
}

/// Where the program header at `p` loads its segment: `None` if it loads nothing.
pub open spec fn load_at(d: Seq<u8>, wide: bool, p: int) -> Result<Option<int>, Seq<char>> {
    if p + 4 > d.len() {
        Err(short())
    } else if bytes::le32(d, p) != 1 {
        Ok(None)
    } else {
        match word(
            d,
            wide,
            p + if wide {
                40
            } else {
                20int
            },
        ) {
            None => Err(short()),
            Some(size) => if size == 0 {
                Ok(None)
            } else {
                match word(
                    d,
                    wide,
                    p + if wide {
                        24
                    } else {
                        12int
                    },
                ) {
                    None => Err(short()),
                    Some(a) => Ok(Some(a)),
                }
            },
        }
    }
}

/// The lowest address that the first `n` program headers load to, or the highest there is.
pub open spec fn lowest(d: Seq<u8>, h: Head, n: nat) -> Result<int, Seq<char>>
    decreases n,
{
    if n == 0 {
        Ok(u64::MAX as int)
    } else {
        match lowest(d, h, (n - 1) as nat) {
            Err(e) => Err(e),
            Ok(least) => match load_at(d, h.wide, h.start + (n - 1) * h.step) {
                Err(e) => Err(e),
                Ok(None) => Ok(least),
                Ok(Some(a)) => Ok(
                    if a < least {
                        a
                    } else {
                        least
                    },
                ),
            },
        }
    }
}

/// The entry point and the lowest load address.
pub open spec fn boot_addresses(d: Seq<u8>) -> Result<(int, int), Seq<char>> {
    match head(d) {
        Err(e) => Err(e),
        Ok(h) => match lowest(d, h, h.count as nat) {
            Err(e) => Err(e),
            Ok(least) => if least == u64::MAX {
                Err("the kernel image has no loadable segment"@)
            } else {
                Ok((h.entry, least))
            },
        },
    }
}

fn get_word(d: &[u8], wide: bool, i: u128) -> (r: Option<u64>)
    requires
        i < 0x1_0000_0000_0000_0000_0000,
    ensures
        match r {
            Some(x) => word(d@, wide, i as int) == Some(x as int),
            None => word(d@, wide, i as int) == None::<int>,
        },
{
    if wide {
        if i + 8 <= d.len() as u128 {
            Some(bytes::get_le64(d, i as usize))
        } else {
            None
        }
    } else if i + 4 <= d.len() as u128 {
        Some(bytes::get_le32(d, i as usize) as u64)
    } else {
        None
    }
}

fn get_load(d: &[u8], wide: bool, p: u128) -> (r: Result<Option<u64>, String>)
    requires
        p < 0x100_0000_0000_0000_0000,
    ensures
        match r {
            Ok(Some(a)) => load_at(d@, wide, p as int) == Ok::<Option<int>, Seq<char>>(Some(a as int)),
            Ok(None) => load_at(d@, wide, p as int) == Ok::<Option<int>, Seq<char>>(None),
            Err(e) => load_at(d@, wide, p as int) == Err::<Option<int>, Seq<char>>(e@),
        },
{
    let m = "the kernel image is too short to be an ELF".to_owned();
    if p + 4 > d.len() as u128 {
        return Err(m);
    }
    if bytes::get_le32(d, p as usize) != 1 {
        return Ok(None);
    }
    let size_at: u128 = if wide {
        p + 40
    } else {
        p + 20
    };
    match get_word(d, wide, size_at) {
        None => Err(m),
        Some(size) => {
            if size == 0 {
                return Ok(None);
            }
            let address_at: u128 = if wide {
                p + 24
            } else {
                p + 12
            };
            match get_word(d, wide, address_at) {
                None => Err(m),
                Some(a) => Ok(Some(a)),
            }
        },
    }
}

/// The ELF entry point and the lowest physical load address, from either class of ELF.
///
/// Physical, because a flat binary starts at the lowest load (physical) address of a section with
/// contents, and a board loads it there. A header table that runs past the end of the file is too
/// short, however far past.
pub fn entry_and_load(elf: &[u8]) -> (r: Result<(u64, u64), String>)
    ensures
        match r {
            Ok((entry, load)) => boot_addresses(elf@) == Ok::<(int, int), Seq<char>>((entry as int, load as int)),
            Err(e) => boot_addresses(elf@) == Err::<(int, int), Seq<char>>(e@),
        },
{
    let magic: [u8; 4] = [0x7f, 0x45, 0x4c, 0x46];
    assert(magic@ =~= seq![0x7fu8, 0x45, 0x4c, 0x46]);
    if !bytes::starts_with(elf, magic.as_slice()) {
        return Err("the kernel image is not an ELF".to_owned());
    }
    if elf.len() <= 5 || elf[5] != 1 {
        return Err("only little-endian ELF images are packaged".to_owned());
    }
    if elf[4] != 1 && elf[4] != 2 {
        return Err("the kernel image is neither a 32- nor a 64-bit ELF".to_owned());
    }
    let wide: bool = elf[4] == 2;
    if (wide && elf.len() < 58) || (!wide && elf.len() < 46) {
        return Err("the kernel image is too short to be an ELF".to_owned());
    }
    let (entry, start, step, count): (u64, u64, u16, u16) = if wide {
        (bytes::get_le64(elf, 24), bytes::get_le64(elf, 32), bytes::get_le16(elf, 54), bytes::get_le16(elf, 56))
    } else {
        (
            bytes::get_le32(elf, 24) as u64,
            bytes::get_le32(elf, 28) as u64,
            bytes::get_le16(elf, 42),
            bytes::get_le16(elf, 44),
        )
    };
    let ghost h = head(elf@)->Ok_0;
    assert(head(elf@) == Ok::<Head, Seq<char>>(h));
    let mut load: u64 = u64::MAX;
    let mut i: u16 = 0;
    while i < count
        invariant
            i <= count,
            head(elf@) == Ok::<Head, Seq<char>>(h),
            h.wide == wide,
            h.start == start,
            h.step == step,
            h.count == count,
            lowest(elf@, h, i as nat) == Ok::<int, Seq<char>>(load as int),
        decreases count - i,
    {
        assert(0 <= i * step <= 0xffff * 0xffff) by (nonlinear_arith)
            requires
                0 <= i <= 0xffff,
                0 <= step <= 0xffff,
        ;
        let p: u128 = start as u128 + i as u128 * step as u128;
        match get_load(elf, wide, p) {
            Err(e) => {
                proof {
                    errors_stay(elf@, h, (i + 1) as nat, h.count as nat);
                }
                return Err(e);
            },
            Ok(None) => {},
            Ok(Some(a)) => {
                if a < load {
                    load = a;
                }
            },
        }
        i += 1;
    }
    if load == u64::MAX {
        return Err("the kernel image has no loadable segment".to_owned());
    }
    Ok((entry, load))
}

proof fn errors_stay(d: Seq<u8>, h: Head, n: nat, m: nat)
    requires
        lowest(d, h, n) is Err,
        n <= m,
    ensures
        lowest(d, h, m) == lowest(d, h, n),
    decreases m,
{
    if n < m {
        errors_stay(d, h, n, (m - 1) as nat);
    }
}

// ---- U-Boot ----

/// The fields of a U-Boot legacy image header that vary.
pub struct UImage<'a> {
    pub arch: u8,
    pub load: u32,
    pub entry: u32,
    pub name: &'a str,
}

/// U-Boot's `IH_ARCH_*` for the first part of a target's name.
pub open spec fn arch_of(family: Seq<char>) -> Option<u8> {
    if family == "armv7m"@ {
        Some(2)
    } else if family == "i686"@ {
        Some(3)
    } else if family == "aarch64"@ {
        Some(22)
    } else if family == "x86_64"@ {
        Some(24)
    } else if family == "riscv32"@ || family == "riscv32i"@ {
        Some(26)
    } else {
        None
    }
}

/// What of a target's name precedes the first dash.
pub open spec fn family_of(target: Seq<char>) -> Seq<char> {
    target.subrange(0, text::next_of(target, '-', 0))
}

/// U-Boot's `IH_ARCH_*` for a target.
pub fn uimage_arch(target: &str) -> (r: Result<u8, String>)
    ensures
        match r {
            Ok(a) => arch_of(family_of(target@)) == Some(a),
            Err(e) => arch_of(family_of(target@)) is None && e@ == "no U-Boot architecture is known for target `"@
                + family_of(target@) + "`"@,
        },
{
    let t = text::chars(target);
    let n: usize = text::find_char(t.as_slice(), '-', 0);
    let family = text::string(text::part(t.as_slice(), 0, n).as_slice());
    let f = family.as_str();
    if text::same(f, "armv7m") {
        Ok(2)
    } else if text::same(f, "i686") {
        Ok(3)
    } else if text::same(f, "aarch64") {
        Ok(22)
    } else if text::same(f, "x86_64") {
        Ok(24)
    } else if text::same(f, "riscv32") || text::same(f, "riscv32i") {
        Ok(26)
    } else {
        let mut m = "no U-Boot architecture is known for target `".to_owned();
        m.append(f);
        m.append("`");
        Err(m)
    }
}

/// The bytes of a name as they stand in the header: at most 31, so that the field always ends in
/// the NUL that U-Boot's printing expects.
pub open spec fn name_field(name: Seq<char>) -> Seq<u8> {
    let b = vstd::utf8::encode_utf8(name);
    Seq::new(
        32,
        |i: int|
            if i < b.len() && i < 31 {
                b[i]
            } else {
                0u8
            },
    )
}

/// The header with `hcrc` for its own checksum.
pub open spec fn header(arch: u8, load: int, entry: int, name: Seq<char>, payload: Seq<u8>, hcrc: int) -> Seq<u8> {
    bytes::be32_bytes(UIMAGE_MAGIC as int) + bytes::be32_bytes(hcrc) + bytes::be32_bytes(0) + bytes::be32_bytes(
        payload.len() as int,
    ) + bytes::be32_bytes(load) + bytes::be32_bytes(entry) + bytes::be32_bytes(crc::crc_of(payload) as int) + seq![
        IH_OS_U_BOOT,
        arch,
        IH_TYPE_STANDALONE,
        IH_COMP_NONE,
    ] + name_field(name)
}

/// A U-Boot legacy image.
pub open spec fn uimage_of(arch: u8, load: int, entry: int, name: Seq<char>, payload: Seq<u8>) -> Seq<u8> {
    let hcrc = crc::crc_of(header(arch, load, entry, name, payload, 0)) as int;
    header(arch, load, entry, name, payload, hcrc) + payload
}

fn build_header(h: &UImage<'_>, payload: &[u8], hcrc: u32) -> (r: Vec<u8>)
    requires
        payload@.len() <= u32::MAX,
    ensures
        r@ == header(h.arch, h.load as int, h.entry as int, h.name@, payload@, hcrc as int),
{
    let mut v: Vec<u8> = Vec::new();
    bytes::push_be32(&mut v, UIMAGE_MAGIC);
    bytes::push_be32(&mut v, hcrc);
    bytes::push_be32(&mut v, 0);
    bytes::push_be32(&mut v, payload.len() as u32);
    bytes::push_be32(&mut v, h.load);
    bytes::push_be32(&mut v, h.entry);
    bytes::push_be32(&mut v, crc::crc32(payload));
    let ghost before = v@;
    v.push(IH_OS_U_BOOT);
    v.push(h.arch);
    v.push(IH_TYPE_STANDALONE);
    v.push(IH_COMP_NONE);
    let ghost tags = seq![IH_OS_U_BOOT, h.arch, IH_TYPE_STANDALONE, IH_COMP_NONE];
    assert(v@ =~= before + tags);
    let name = h.name.as_bytes();
    let ghost want = name_field(h.name@);
    let mut i: usize = 0;
    assert(v@ =~= before + tags + want.subrange(0, 0));
    while i < 32
        invariant
            i <= 32,
            want == name_field(h.name@),
            name@ == vstd::utf8::encode_utf8(h.name@),
            v@ == before + tags + want.subrange(0, i as int),
        decreases 32 - i,
    {
        if i < name.len() && i < 31 {
            v.push(name[i]);
        } else {
            v.push(0);
        }
        assert(v@ =~= before + tags + want.subrange(0, i + 1));
        i += 1;
    }
    assert(want.subrange(0, 32) =~= want);
    v
}

/// A U-Boot legacy image: the 64-byte big-endian header, then `payload`.
///
/// The timestamp is zero rather than the clock, so the image is reproducible; U-Boot prints it
/// and does not act on it.
pub fn uimage(h: &UImage<'_>, payload: &[u8]) -> (r: Result<Vec<u8>, String>)
    ensures
        match r {
            Ok(image) => payload@.len() <= u32::MAX && image@ == uimage_of(
                h.arch,
                h.load as int,
                h.entry as int,
                h.name@,
                payload@,
            ),
            Err(e) => payload@.len() > u32::MAX && e@ == "a "@ + text::decimal(payload@.len() as int)
                + "-byte payload does not fit a uImage"@,
        },
{
    if payload.len() as u128 > u32::MAX as u128 {
        let mut m = "a ".to_owned();
        m.append(text::int_text(payload.len() as i128).as_str());
        m.append("-byte payload does not fit a uImage");
        return Err(m);
    }
    let blank = build_header(h, payload, 0);
    let hcrc: u32 = crc::crc32(blank.as_slice());
    let mut image = build_header(h, payload, hcrc);
    bytes::push_all(&mut image, payload);
    Ok(image)
}

/// What `uimage` packages for a target: its architecture, load address, entry point and name.
pub struct Package {
    pub arch: u8,
    pub load: u32,
    pub entry: u32,
    pub name: String,
}

/// The header fields for the image of a target, from the addresses in its ELF.
pub fn package(target: &str, elf: &[u8]) -> (r: Result<Package, String>)
    ensures
        match boot_addresses(elf@) {
            Err(e) => r is Err && r->Err_0@ == e,
            Ok((entry, load)) => match arch_of(family_of(target@)) {
                None => r is Err && r->Err_0@ == "no U-Boot architecture is known for target `"@ + family_of(target@)
                    + "`"@,
                Some(a) => if load > u32::MAX {
                    r is Err && r->Err_0@ == "load address "@ + text::hexadecimal(load) + " does not fit a uImage"@
                } else if entry > u32::MAX {
                    r is Err && r->Err_0@ == "entry point "@ + text::hexadecimal(entry) + " does not fit a uImage"@
                } else {
                    r is Ok && r->Ok_0.arch == a && r->Ok_0.load == load && r->Ok_0.entry == entry
                        && r->Ok_0.name@ == "KinTane "@ + target@
                },
            },
        },
{
    match entry_and_load(elf) {
        Err(e) => Err(e),
        Ok((entry, load)) => match uimage_arch(target) {
            Err(e) => Err(e),
            Ok(arch) => {
                if load > u32::MAX as u64 {
                    let mut m = "load address ".to_owned();
                    m.append(text::hex_text(load as u128).as_str());
                    m.append(" does not fit a uImage");
                    return Err(m);
                }
                if entry > u32::MAX as u64 {
                    let mut m = "entry point ".to_owned();
                    m.append(text::hex_text(entry as u128).as_str());
                    m.append(" does not fit a uImage");
                    return Err(m);
                }
                let mut name = "KinTane ".to_owned();
                name.append(target);
                Ok(Package { arch, load: load as u32, entry: entry as u32, name })
            },
        },
    }
}

/// The U-Boot image of a target: `payload` behind a header made from the addresses in the linked
/// ELF, or why there is none.
pub fn uimage_for(target: &str, elf: &[u8], payload: &[u8]) -> (r: Result<Vec<u8>, String>)
    ensures
        match r {
            Ok(image) => boot_addresses(elf@) matches Ok((entry, load)) && arch_of(family_of(target@)) matches Some(a)
                && load <= u32::MAX && entry <= u32::MAX && payload@.len() <= u32::MAX && image@ == uimage_of(
                a,
                load,
                entry,
                "KinTane "@ + target@,
                payload@,
            ),
            Err(e) => match boot_addresses(elf@) {
                Err(why) => e@ == why,
                Ok((entry, load)) => match arch_of(family_of(target@)) {
                    None => e@ == "no U-Boot architecture is known for target `"@ + family_of(target@) + "`"@,
                    Some(_) => if load > u32::MAX {
                        e@ == "load address "@ + text::hexadecimal(load) + " does not fit a uImage"@
                    } else if entry > u32::MAX {
                        e@ == "entry point "@ + text::hexadecimal(entry) + " does not fit a uImage"@
                    } else {
                        payload@.len() > u32::MAX && e@ == "a "@ + text::decimal(payload@.len() as int)
                            + "-byte payload does not fit a uImage"@
                    },
                },
            },
        },
{
    match package(target, elf) {
        Err(e) => Err(e),
        Ok(p) => uimage(&UImage { arch: p.arch, load: p.load, entry: p.entry, name: p.name.as_str() }, payload),
    }
}

/// A U-Boot image describes its payload and checks itself: the payload follows the header, the
/// header holds its length and its CRC, the header's own CRC is that of the header with that
/// field zero, and the name field ends in NUL.
pub proof fn uimages_check_themselves(arch: u8, load: int, entry: int, name: Seq<char>, payload: Seq<u8>)
    requires
        payload.len() <= u32::MAX,
        0 <= load <= u32::MAX,
        0 <= entry <= u32::MAX,
    ensures
        ({
            let image = uimage_of(arch, load, entry, name, payload);
            let front = image.subrange(0, UIMAGE_HEADER as int);
            &&& image.subrange(UIMAGE_HEADER as int, image.len() as int) == payload
            &&& bytes::be32(image, 0) == UIMAGE_MAGIC
            &&& bytes::be32(image, 12) == payload.len()
            &&& bytes::be32(image, 16) == load
            &&& bytes::be32(image, 20) == entry
            &&& bytes::be32(image, 24) == crc::crc_of(payload)
            &&& bytes::be32(image, 4) == crc::crc_of(bytes::splice(front, 4, bytes::zeros(4)))
            &&& image[63] == 0
        }),
{
    let hcrc = crc::crc_of(header(arch, load, entry, name, payload, 0)) as int;
    let (blank, full) = (header(arch, load, entry, name, payload, 0), header(arch, load, entry, name, payload, hcrc));
    let image = uimage_of(arch, load, entry, name, payload);
    let front = image.subrange(0, UIMAGE_HEADER as int);
    bytes::be32_of_bytes(UIMAGE_MAGIC as int);
    bytes::be32_of_bytes(hcrc);
    bytes::be32_of_bytes(payload.len() as int);
    bytes::be32_of_bytes(load);
    bytes::be32_of_bytes(entry);
    bytes::be32_of_bytes(crc::crc_of(payload) as int);
    assert(full.len() == 64);
    assert(front =~= full);
    assert(image.subrange(UIMAGE_HEADER as int, image.len() as int) =~= payload);
    assert(bytes::splice(front, 4, bytes::zeros(4)) =~= blank);
    field_at(full, 0, UIMAGE_MAGIC as int, payload);
    field_at(full, 4, hcrc, payload);
    field_at(full, 12, payload.len() as int, payload);
    field_at(full, 16, load, payload);
    field_at(full, 20, entry, payload);
    field_at(full, 24, crc::crc_of(payload) as int, payload);
}

proof fn field_at(front: Seq<u8>, i: int, x: int, rest: Seq<u8>)
    requires
        0 <= x < 0x1_0000_0000,
        0 <= i,
        i + 4 <= front.len(),
        front[i] == bytes::be32_bytes(x)[0],
        front[i + 1] == bytes::be32_bytes(x)[1],
        front[i + 2] == bytes::be32_bytes(x)[2],
        front[i + 3] == bytes::be32_bytes(x)[3],
    ensures
        bytes::be32(front + rest, i) == x,
{
    bytes::be32_of_bytes(x);
}

} // verus!
