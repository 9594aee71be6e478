//! Stamping the build ID into a linked image, and reading it back.
//!
//! The kernel reserves twenty bytes behind a marker. After linking, the ID is computed and written
//! there, before the image is stripped and packaged, so that the bootable image, the linked ELF
//! and the symbol bundle all agree.
//!
//! The ID is the start of the SHA-256 over the entry point and every `PT_LOAD` segment: its
//! address, size and flags, and its bytes in the file with the twenty ID bytes read as zero. So the
//! ID cannot depend on itself, and stamping an image twice changes nothing. And only what the
//! machine loads is covered: debug sections, the symbol table and section names are not, so that a
//! change which alters nothing that the processor would run or read keeps its ID.

use vstd::prelude::*;
use vstd::slice::slice_subrange;
use vstd::string::*;

use crate::bytes;
use crate::digest;
use crate::digest::Sha256;
use crate::text;

verus! {

/// Bytes of ID.
pub const LEN: usize = 20;

/// What precedes the ID in the image: `KinTane-BID:`.
pub const MARKER: [u8; 12] = [75u8, 105, 110, 84, 97, 110, 101, 45, 66, 73, 68, 58];

/// The section of the symbol bundle that records the ID of the image it describes.
pub const BUNDLE_SECTION: &'static str = ".kintane.build-id";

/// What the hashed bytes begin with: `kintane-build-id-v1` and a zero.
pub const PREFIX: [u8; 20] = [
    107u8,
    105,
    110,
    116,
    97,
    110,
    101,
    45,
    98,
    117,
    105,
    108,
    100,
    45,
    105,
    100,
    45,
    118,
    49,
    0,
];

/// One loadable segment.
pub struct Load {
    pub offset: usize,
    pub filesz: usize,
    pub vaddr: u64,
    pub memsz: u64,
    pub flags: u32,
}

/// A loadable segment, as numbers.
pub ghost struct Segment {
    pub offset: int,
    pub filesz: int,
    pub vaddr: int,
    pub memsz: int,
    pub flags: int,
}

impl View for Load {
    type V = Segment;

    open spec fn view(&self) -> Segment {
        Segment {
            offset: self.offset as int,
            filesz: self.filesz as int,
            vaddr: self.vaddr as int,
            memsz: self.memsz as int,
            flags: self.flags as int,
        }
    }
}

/// The segments that a list of them stands for.
pub open spec fn segments_of(v: Seq<Load>) -> Seq<Segment> {
    v.map_values(|l: Load| l@)
}

/// The four bytes every ELF file begins with.
pub open spec fn elf_magic() -> Seq<u8> {
    seq![0x7fu8, 0x45, 0x4c, 0x46]
}

/// The segment whose program header stands at `h`, if it is loaded.
pub open spec fn segment_at(d: Seq<u8>, wide: bool, h: int) -> Option<Segment> {
    if bytes::le32(d, h) != 1 {
        None
    } else if wide {
        Some(
            Segment {
                offset: bytes::le64(d, h + 0x08),
                filesz: bytes::le64(d, h + 0x20),
                vaddr: bytes::le64(d, h + 0x10),
                memsz: bytes::le64(d, h + 0x28),
                flags: bytes::le32(d, h + 0x04),
            },
        )
    } else {
        Some(
            Segment {
                offset: bytes::le32(d, h + 0x04),
                filesz: bytes::le32(d, h + 0x10),
                vaddr: bytes::le32(d, h + 0x08),
                memsz: bytes::le32(d, h + 0x14),
                flags: bytes::le32(d, h + 0x18),
            },
        )
    }
}

/// How many bytes of a program header are read.
pub open spec fn header_reach(wide: bool) -> int {
    if wide {
        0x30
    } else {
        0x1c
    }
}

/// Where the program headers stand, how far apart, and how many there are.
pub ghost struct Headers {
    pub wide: bool,
    pub entry: int,
    pub start: int,
    pub step: int,
    pub count: int,
}

/// The loadable segments from header `i` on.
pub open spec fn segments_from(d: Seq<u8>, h: Headers, i: int) -> Result<Seq<Segment>, Seq<char>>
    decreases h.count - i,
{
    let at = h.start + i * h.step;
    if i < 0 || i >= h.count {
        Ok(seq![])
    } else if at + header_reach(h.wide) > d.len() {
        Err("ELF header truncated"@)
    } else {
        match segment_at(d, h.wide, at) {
            None => segments_from(d, h, i + 1),
            Some(s) => if s.offset + s.filesz > d.len() {
                Err("a loadable segment extends past the end of the file"@)
            } else {
                match segments_from(d, h, i + 1) {
                    Ok(rest) => Ok(seq![s] + rest),
                    Err(e) => Err(e),
                }
            },
        }
    }
}

/// The headers of an ELF file.
pub open spec fn headers(d: Seq<u8>) -> Result<Headers, Seq<char>> {
    if d.len() < 0x34 || !bytes::begins(d, elf_magic()) {
        Err("not an ELF file"@)
    } else if d[4] != 1 && d[4] != 2 {
        Err("unknown ELF class "@ + text::decimal(d[4] as int))
    } else if d[5] != 1 {
        Err("only little-endian images are stamped"@)
    } else if d[4] == 2 {
        if d.len() < 0x3a {
            Err("ELF header truncated"@)
        } else {
            Ok(
                Headers {
                    wide: true,
                    entry: bytes::le64(d, 0x18),
                    start: bytes::le64(d, 0x20),
                    step: bytes::le16(d, 0x36),
                    count: bytes::le16(d, 0x38),
                },
            )
        }
    } else {
        Ok(
            Headers {
                wide: false,
                entry: bytes::le32(d, 0x18),
                start: bytes::le32(d, 0x1c),
                step: bytes::le16(d, 0x2a),
                count: bytes::le16(d, 0x2c),
            },
        )
    }
}

/// The entry point and the loadable segments of an ELF file.
pub open spec fn loaded(d: Seq<u8>) -> Result<(int, Seq<Segment>), Seq<char>> {
    match headers(d) {
        Err(e) => Err(e),
        Ok(h) => match segments_from(d, h, 0) {
            Err(e) => Err(e),
            Ok(s) => Ok((h.entry, s)),
        },
    }
}

/// A segment's bytes in the file.
pub open spec fn contents(d: Seq<u8>, s: Segment) -> Seq<u8> {
    d.subrange(s.offset, s.offset + s.filesz)
}

/// What follows each marker in a segment, as places in the file.
pub open spec fn ids_in(d: Seq<u8>, s: Segment) -> Seq<int> {
    bytes::places(contents(d, s), MARKER@, 0).map_values(|p: int| s.offset + p + MARKER@.len())
}

/// What follows each marker in the first `n` segments.
pub open spec fn ids(d: Seq<u8>, segments: Seq<Segment>, n: nat) -> Seq<int>
    decreases n,
{
    if n == 0 {
        seq![]
    } else {
        ids(d, segments, (n - 1) as nat) + ids_in(d, segments[n - 1])
    }
}

/// Where the ID stands: behind the one marker in a loadable segment.
pub open spec fn id_place(d: Seq<u8>, segments: Seq<Segment>) -> Result<int, Seq<char>> {
    let found = ids(d, segments, segments.len());
    if found.len() == 0 {
        Err(
            "no build ID marker in the image's loadable segments; is lib/buildid linked and kept by link.ld?"@,
        )
    } else if found.len() > 1 {
        Err(
            "the build ID marker occurs "@ + text::decimal(found.len() as int)
                + " times in the image; refusing to guess which"@,
        )
    } else if found[0] + LEN <= d.len() {
        Ok(found[0])
    } else {
        Err("the build ID marker is at the very end of the image"@)
    }
}

/// A segment's bytes, with those of the ID at `at` read as zero.
pub open spec fn masked(d: Seq<u8>, s: Segment, at: int) -> Seq<u8> {
    Seq::new(
        s.filesz as nat,
        |j: int|
            if at <= s.offset + j < at + LEN {
                0u8
            } else {
                d[s.offset + j]
            },
    )
}

/// What is hashed of the first `n` segments.
pub open spec fn message(d: Seq<u8>, entry: int, segments: Seq<Segment>, at: int, n: nat) -> Seq<u8>
    decreases n,
{
    if n == 0 {
        PREFIX@ + bytes::le64_bytes(entry)
    } else {
        let s = segments[n - 1];
        message(d, entry, segments, at, (n - 1) as nat) + bytes::le64_bytes(s.vaddr) + bytes::le64_bytes(s.memsz)
            + bytes::le32_bytes(s.flags) + bytes::le64_bytes(s.filesz) + masked(d, s, at)
    }
}

/// The ID of an image, by its segments and where the ID stands.
pub open spec fn id_for(d: Seq<u8>, entry: int, segments: Seq<Segment>, at: int) -> Seq<u8> {
    digest::sha256(message(d, entry, segments, at, segments.len())).subrange(0, LEN as int)
}

/// The ID an image should carry, whatever it carries now.
pub open spec fn id_of(d: Seq<u8>) -> Result<Seq<u8>, Seq<char>> {
    match loaded(d) {
        Err(e) => Err(e),
        Ok((entry, segments)) => match id_place(d, segments) {
            Err(e) => Err(e),
            Ok(at) => Ok(id_for(d, entry, segments, at)),
        },
    }
}

/// Whether every segment's bytes lie in the file.
pub open spec fn all_inside(d: Seq<u8>, segments: Seq<Segment>) -> bool {
    forall|i: int|
        0 <= i < segments.len() ==> {
            &&& 0 <= (#[trigger] segments[i]).offset
            &&& 0 <= segments[i].filesz
            &&& segments[i].offset + segments[i].filesz <= d.len()
        }
}

/// The entry point and loadable segments of an ELF image.
///
/// A header table that runs past the end of the file is truncated, however far past: addresses
/// are not cut to 64 bits.
pub fn loads(data: &[u8]) -> (r: Result<(u64, Vec<Load>), String>)
    ensures
        match r {
            Ok((entry, segments)) => loaded(data@) == Ok::<(int, Seq<Segment>), Seq<char>>(
                (entry as int, segments_of(segments@)),
            ) && all_inside(data@, segments_of(segments@)),
            Err(e) => loaded(data@) == Err::<(int, Seq<Segment>), Seq<char>>(e@),
        },
{
    let magic: [u8; 4] = [0x7f, 0x45, 0x4c, 0x46];
    assert(magic@ =~= elf_magic());
    if data.len() < 0x34 || !bytes::starts_with(data, magic.as_slice()) {
        return Err("not an ELF file".to_owned());
    }
    if data[4] != 1 && data[4] != 2 {
        let mut m = "unknown ELF class ".to_owned();
        m.append(text::int_text(data[4] as i128).as_str());
        return Err(m);
    }
    if data[5] != 1 {
        return Err("only little-endian images are stamped".to_owned());
    }
    let wide: bool = data[4] == 2;
    if wide && data.len() < 0x3a {
        return Err("ELF header truncated".to_owned());
    }
    let (entry, start, step, count): (u64, u64, u16, u16) = if wide {
        (
            bytes::get_le64(data, 0x18),
            bytes::get_le64(data, 0x20),
            bytes::get_le16(data, 0x36),
            bytes::get_le16(data, 0x38),
        )
    } else {
        (
            bytes::get_le32(data, 0x18) as u64,
            bytes::get_le32(data, 0x1c) as u64,
            bytes::get_le16(data, 0x2a),
            bytes::get_le16(data, 0x2c),
        )
    };
    let ghost h = headers(data@)->Ok_0;
    assert(headers(data@) == Ok::<Headers, Seq<char>>(h));
    let mut out: Vec<Load> = Vec::new();
    let mut i: u16 = 0;
    assert(segments_of(out@) =~= seq![]);
    assert(match segments_from(data@, h, 0) {
        Ok(rest) => segments_of(out@) + rest =~= rest,
        Err(_) => true,
    });
    while i < count
        invariant
            i <= count,
            headers(data@) == Ok::<Headers, Seq<char>>(h),
            h.wide == wide,
            h.start == start,
            h.step == step,
            h.count == count,
            all_inside(data@, segments_of(out@)),
            segments_from(data@, h, 0) == match segments_from(data@, h, i as int) {
                Ok(rest) => Ok::<Seq<Segment>, Seq<char>>(segments_of(out@) + rest),
                Err(e) => Err(e),
            },
        decreases count - i,
    {
        assert(i * step <= 0xffff * 0xffff) by (nonlinear_arith)
            requires
                i <= 0xffff,
                step <= 0xffff,
        ;
        assert(i * step >= 0) by (nonlinear_arith);
        let at: u128 = start as u128 + i as u128 * step as u128;
        let reach: u128 = if wide {
            0x30
        } else {
            0x1c
        };
        if at + reach > data.len() as u128 {
            return Err("ELF header truncated".to_owned());
        }
        let p: usize = at as usize;
        let ghost len = data.len();
        if bytes::get_le32(data, p) == 1 {
            let (offset, filesz, vaddr, memsz, flags): (u64, u64, u64, u64, u32) = if wide {
                (
                    bytes::get_le64(data, p + 0x08),
                    bytes::get_le64(data, p + 0x20),
                    bytes::get_le64(data, p + 0x10),
                    bytes::get_le64(data, p + 0x28),
                    bytes::get_le32(data, p + 0x04),
                )
            } else {
                (
                    bytes::get_le32(data, p + 0x04) as u64,
                    bytes::get_le32(data, p + 0x10) as u64,
                    bytes::get_le32(data, p + 0x08) as u64,
                    bytes::get_le32(data, p + 0x14) as u64,
                    bytes::get_le32(data, p + 0x18),
                )
            };
            if offset as u128 + filesz as u128 > data.len() as u128 {
                return Err("a loadable segment extends past the end of the file".to_owned());
            }
            let s = Load { offset: offset as usize, filesz: filesz as usize, vaddr, memsz, flags };
            let ghost before = segments_of(out@);
            let ghost added = s@;
            proof {
                if segments_from(data@, h, i + 1) is Ok {
                    let rest = segments_from(data@, h, i + 1)->Ok_0;
                    assert(before + (seq![added] + rest) =~= before.push(added) + rest);
                }
            }
            out.push(s);
            assert(segments_of(out@) =~= before.push(added));
        }
        i += 1;
    }
    assert(segments_of(out@) + seq![] =~= segments_of(out@));
    Ok((entry, out))
}

/// The file offset of the ID: just past the one marker inside a loadable segment.
pub fn id_offset(data: &[u8], segments: &[Load]) -> (r: Result<usize, String>)
    requires
        all_inside(data@, segments_of(segments@)),
    ensures
        match r {
            Ok(at) => id_place(data@, segments_of(segments@)) == Ok::<int, Seq<char>>(at as int) && at + LEN
                <= data@.len(),
            Err(e) => id_place(data@, segments_of(segments@)) == Err::<int, Seq<char>>(e@),
        },
{
    let ghost all = segments_of(segments@);
    let mut found: Vec<usize> = Vec::new();
    let mut i: usize = 0;
    assert(bytes::places_of(found@) =~= ids(data@, all, 0));
    while i < segments.len()
        invariant
            i <= segments@.len(),
            all == segments_of(segments@),
            all_inside(data@, all),
            bytes::places_of(found@) == ids(data@, all, i as nat),
            forall|k: int| 0 <= k < found@.len() ==> #[trigger] found@[k] <= data@.len(),
        decreases segments@.len() - i,
    {
        let s = &segments[i];
        let ghost seg = all[i as int];
        assert(seg == s@);
        let ghost len = data.len();
        let here = bytes::all_places(slice_subrange(data, s.offset, s.offset + s.filesz), MARKER.as_slice());
        let ghost before = bytes::places_of(found@);
        let ghost want = bytes::places(contents(data@, seg), MARKER@, 0);
        let mut k: usize = 0;
        assert(bytes::places_of(found@) =~= before + ids_in(data@, seg).subrange(0, 0));
        while k < here.len()
            invariant
                k <= here@.len(),
                seg == s@,
                s.offset + s.filesz <= data@.len() == len,
                want == bytes::places(contents(data@, seg), MARKER@, 0),
                bytes::places_of(here@) == want,
                forall|j: int| 0 <= j < here@.len() ==> #[trigger] here@[j] + 12 <= s.filesz,
                bytes::places_of(found@) == before + ids_in(data@, seg).subrange(0, k as int),
                forall|j: int| 0 <= j < found@.len() ==> #[trigger] found@[j] <= data@.len(),
            decreases here@.len() - k,
        {
            assert(bytes::places_of(here@)[k as int] == here@[k as int]);
            assert(ids_in(data@, seg)[k as int] == s.offset + here@[k as int] + 12);
            let ghost sofar = bytes::places_of(found@);
            found.push(s.offset + here[k] + 12);
            assert(bytes::places_of(found@) =~= sofar.push(ids_in(data@, seg)[k as int]));
            assert(ids_in(data@, seg).subrange(0, k + 1) =~= ids_in(data@, seg).subrange(0, k as int).push(
                ids_in(data@, seg)[k as int],
            ));
            k += 1;
        }
        assert(ids_in(data@, seg).subrange(0, k as int) =~= ids_in(data@, seg));
        i += 1;
    }
    assert(bytes::places_of(found@) == ids(data@, all, all.len()));
    let n: usize = found.len();
    if n == 0 {
        return Err(
            "no build ID marker in the image's loadable segments; is lib/buildid linked and kept by link.ld?".to_owned(),
        );
    }
    if n > 1 {
        let mut m = "the build ID marker occurs ".to_owned();
        m.append(text::int_text(n as i128).as_str());
        m.append(" times in the image; refusing to guess which");
        return Err(m);
    }
    assert(bytes::places_of(found@)[0] == found@[0]);
    if found[0] as u128 + 20 <= data.len() as u128 {
        Ok(found[0])
    } else {
        Err("the build ID marker is at the very end of the image".to_owned())
    }
}

fn masked_bytes(data: &[u8], s: &Load, at: usize) -> (r: Vec<u8>)
    requires
        s.offset + s.filesz <= data@.len(),
        at + LEN <= data@.len(),
    ensures
        r@ == masked(data@, s@, at as int),
{
    let ghost len = data.len();
    let mut r: Vec<u8> = Vec::new();
    let mut j: usize = 0;
    while j < s.filesz
        invariant
            j <= s.filesz,
            s.offset + s.filesz <= data@.len() == len,
            at + LEN <= data@.len(),
            r@ =~= masked(data@, s@, at as int).subrange(0, j as int),
        decreases s.filesz - j,
    {
        let p: usize = s.offset + j;
        if at <= p && p < at + LEN {
            r.push(0);
        } else {
            r.push(data[p]);
        }
        j += 1;
    }
    assert(masked(data@, s@, at as int).subrange(0, j as int) =~= masked(data@, s@, at as int));
    r
}

fn id_with(data: &[u8], entry: u64, segments: &[Load], at: usize) -> (r: [u8; LEN])
    requires
        all_inside(data@, segments_of(segments@)),
        at + LEN <= data@.len(),
    ensures
        r@ == id_for(data@, entry as int, segments_of(segments@), at as int),
{
    let ghost all = segments_of(segments@);
    let mut h = Sha256::new();
    h.update(PREFIX.as_slice());
    let mut w: Vec<u8> = Vec::new();
    bytes::push_le64(&mut w, entry);
    h.update(w.as_slice());
    let mut i: usize = 0;
    assert(h@ =~= message(data@, entry as int, all, at as int, 0));
    while i < segments.len()
        invariant
            i <= segments@.len(),
            all == segments_of(segments@),
            all_inside(data@, all),
            at + LEN <= data@.len(),
            h@ == message(data@, entry as int, all, at as int, i as nat),
        decreases segments@.len() - i,
    {
        let s = &segments[i];
        let ghost seg = all[i as int];
        assert(seg == s@);
        let mut w: Vec<u8> = Vec::new();
        bytes::push_le64(&mut w, s.vaddr);
        bytes::push_le64(&mut w, s.memsz);
        bytes::push_le32(&mut w, s.flags);
        bytes::push_le64(&mut w, s.filesz as u64);
        let ghost before = h@;
        h.update(w.as_slice());
        h.update(masked_bytes(data, s, at).as_slice());
        assert(h@ =~= before + bytes::le64_bytes(seg.vaddr) + bytes::le64_bytes(seg.memsz) + bytes::le32_bytes(
            seg.flags,
        ) + bytes::le64_bytes(seg.filesz) + masked(data@, seg, at as int));
        i += 1;
    }
    let digest = h.finish();
    let mut id: [u8; LEN] = [0u8; 20];
    let mut k: usize = 0;
    while k < LEN
        invariant
            k <= LEN,
            digest@.len() == 32,
            forall|j: int| 0 <= j < k ==> id@[j] == digest@[j],
        decreases LEN - k,
    {
        id[k] = digest[k];
        k += 1;
    }
    assert(id@ =~= digest@.subrange(0, LEN as int));
    id
}

/// The ID `data` should carry, whatever it carries now.
pub fn compute(data: &[u8]) -> (r: Result<[u8; LEN], String>)
    ensures
        match r {
            Ok(id) => id_of(data@) == Ok::<Seq<u8>, Seq<char>>(id@),
            Err(e) => id_of(data@) == Err::<Seq<u8>, Seq<char>>(e@),
        },
{
    match loads(data) {
        Err(e) => Err(e),
        Ok((entry, segments)) => match id_offset(data, segments.as_slice()) {
            Err(e) => Err(e),
            Ok(at) => Ok(id_with(data, entry, segments.as_slice(), at)),
        },
    }
}

/// The ID an image carries.
pub open spec fn carried(d: Seq<u8>) -> Result<Seq<u8>, Seq<char>> {
    match loaded(d) {
        Err(e) => Err(e),
        Ok((_, segments)) => match id_place(d, segments) {
            Err(e) => Err(e),
            Ok(at) => Ok(d.subrange(at, at + LEN)),
        },
    }
}

/// The ID `data` carries now.
pub fn stamped(data: &[u8]) -> (r: Result<[u8; LEN], String>)
    ensures
        match r {
            Ok(id) => carried(data@) == Ok::<Seq<u8>, Seq<char>>(id@),
            Err(e) => carried(data@) == Err::<Seq<u8>, Seq<char>>(e@),
        },
{
    match loads(data) {
        Err(e) => Err(e),
        Ok((_, segments)) => match id_offset(data, segments.as_slice()) {
            Err(e) => Err(e),
            Ok(at) => {
                let ghost len = data.len();
                let mut id: [u8; LEN] = [0u8; 20];
                let mut k: usize = 0;
                while k < LEN
                    invariant
                        k <= LEN,
                        at + LEN <= data@.len() == len,
                        forall|j: int| 0 <= j < k ==> id@[j] == data@[at + j],
                    decreases LEN - k,
                {
                    id[k] = data[at + k];
                    k += 1;
                }
                assert(id@ =~= data@.subrange(at as int, at + LEN));
                Ok(id)
            },
        },
    }
}

/// An image with its ID written.
pub open spec fn stamped_image(d: Seq<u8>) -> Seq<u8> {
    let (_, segments) = loaded(d)->Ok_0;
    bytes::splice(d, id_place(d, segments)->Ok_0, id_of(d)->Ok_0)
}

/// Write into `data` the ID it should carry, and return it. What cannot be stamped is left as it
/// is.
pub fn write_id(data: &mut Vec<u8>) -> (r: Result<[u8; LEN], String>)
    ensures
        match r {
            Ok(id) => id_of(old(data)@) == Ok::<Seq<u8>, Seq<char>>(id@) && final(data)@ == stamped_image(old(data)@),
            Err(e) => id_of(old(data)@) == Err::<Seq<u8>, Seq<char>>(e@) && final(data)@ == old(data)@,
        },
{
    match loads(data.as_slice()) {
        Err(e) => Err(e),
        Ok((entry, segments)) => match id_offset(data.as_slice(), segments.as_slice()) {
            Err(e) => Err(e),
            Ok(at) => {
                let id = id_with(data.as_slice(), entry, segments.as_slice(), at);
                bytes::copy_at(data, at, id.as_slice());
                Ok(id)
            },
        },
    }
}

/// The word behind `bt build ` in a line, if there is one.
pub open spec fn named_in(line: Seq<char>) -> Option<Seq<char>> {
    match bytes::find(line, "bt build "@, 0) {
        None => None,
        Some(at) => {
            let words = text::words(line.subrange(at + "bt build "@.len(), line.len() as int), 0);
            if words.len() > 0 {
                Some(words[0])
            } else {
                None
            }
        },
    }
}

/// The IDs that the first `n` lines name, in order.
pub open spec fn named(lines: Seq<Seq<char>>, n: nat) -> Seq<Seq<char>>
    decreases n,
{
    if n == 0 {
        seq![]
    } else {
        match named_in(lines[n - 1]) {
            Some(id) => named(lines, (n - 1) as nat).push(id),
            None => named(lines, (n - 1) as nat),
        }
    }
}

/// Every build ID a console log names, in order, as hex.
pub fn in_log(log: &str) -> (r: Vec<String>)
    ensures
        text::views(r@) == named(text::lines(log@, 0), text::lines(log@, 0).len()),
{
    let lines = text::split_lines(text::chars(log).as_slice());
    let ghost all = text::lines(log@, 0);
    let needle = text::chars("bt build ");
    let mut r: Vec<String> = Vec::new();
    let mut i: usize = 0;
    assert(text::views(r@) =~= named(all, 0));
    while i < lines.len()
        invariant
            i <= lines@.len(),
            text::char_views(lines@) == all,
            needle@ == "bt build "@,
            text::views(r@) == named(all, i as nat),
        decreases lines@.len() - i,
    {
        let line = &lines[i];
        assert(text::char_views(lines@)[i as int] == line@);
        match text::find_text(line.as_slice(), needle.as_slice()) {
            None => {},
            Some(at) => {
                let ghost n = line.len();
                let rest = text::part(line.as_slice(), at + needle.len(), line.len());
                let words = text::split_words(rest.as_slice());
                if words.len() > 0 {
                    assert(text::char_views(words@)[0] == words@[0]@);
                    let ghost before = text::views(r@);
                    let word = text::string(words[0].as_slice());
                    let ghost w = word@;
                    r.push(word);
                    assert(text::views(r@) =~= before.push(w));
                }
            },
        }
        i += 1;
    }
    r
}

/// Where program header `j` begins.
pub open spec fn header_at(h: Headers, j: int) -> int {
    h.start + j * h.step
}

/// Whether byte `i` of a file belongs to its ELF header or to a program header.
pub open spec fn in_headers(h: Headers, i: int) -> bool {
    i < (if h.wide {
        0x3a
    } else {
        0x34int
    }) || exists|j: int|
        0 <= j < h.count && #[trigger] header_at(h, j) <= i < header_at(h, j) + header_reach(h.wide)
}

/// Whether byte `i` of a file belongs to a loadable segment.
pub open spec fn in_segments(segments: Seq<Segment>, i: int) -> bool {
    exists|k: int|
        0 <= k < segments.len() && (#[trigger] segments[k]).offset <= i < segments[k].offset + segments[k].filesz
}

/// Whether byte `i` of a file can change without the ID of the file changing: no header says it,
/// and it is one of the ID's own bytes or is not loaded.
pub open spec fn is_uncovered(d: Seq<u8>, i: int) -> bool {
    let segments = loaded(d)->Ok_0.1;
    let at = id_place(d, segments)->Ok_0;
    !in_headers(headers(d)->Ok_0, i) && (at <= i < at + LEN || !in_segments(segments, i))
}

/// Files of one length that differ only in the bytes of the ID, or in bytes that are neither loaded
/// nor in a header, have one ID, as long as the marker still occurs once in what is loaded.
#[verifier::spinoff_prover]
#[verifier::rlimit(60)]
pub proof fn uncovered_bytes_do_not_count(d: Seq<u8>, e: Seq<u8>)
    requires
        id_of(d) is Ok,
        d.len() == e.len(),
        forall|i: int| 0 <= i < d.len() && #[trigger] d[i] != e[i] ==> is_uncovered(d, i),
        ids(e, loaded(d)->Ok_0.1, loaded(d)->Ok_0.1.len()).len() == 1,
    ensures
        loaded(e) == loaded(d),
        id_place(e, loaded(d)->Ok_0.1) == id_place(d, loaded(d)->Ok_0.1),
        id_of(e) == id_of(d),
{
    let h = headers(d)->Ok_0;
    let (entry, segments) = loaded(d)->Ok_0;
    let at = id_place(d, segments)->Ok_0;
    assert forall|i: int| 0 <= i < d.len() && in_headers(h, i) implies #[trigger] d[i] == e[i] by {}
    assert(d.subrange(0, 4) =~= e.subrange(0, 4));
    assert(headers(e) == headers(d));
    same_headers(d, e, h, 0);
    segments_are_inside(d, h, 0);
    marker_of(d, segments, segments.len(), 0);
    let k = choose|k: int| 0 <= k < segments.len() && #[trigger] marked(d, segments[k], at);
    let s = segments[k];
    let p = at - s.offset - MARKER@.len();
    let (x, y) = (contents(d, s).subrange(p, p + MARKER@.len()), contents(e, s).subrange(p, p + MARKER@.len()));
    assert forall|i: int| 0 <= i < MARKER@.len() implies #[trigger] x[i] == y[i] by {
        assert(in_segments(segments, s.offset + p + i));
        assert(d[s.offset + p + i] == e[s.offset + p + i]);
    }
    assert(x =~= y);
    assert(marked(e, s, at));
    marked_is_found(e, segments, segments.len(), k, at);
    assert(ids(e, segments, segments.len())[0] == at);
    same_but_for_the_id(d, e, entry, segments, at, segments.len());
}

/// Stamping an image again changes nothing: an image that carries an ID, any ID, hashes to the
/// same ID as before, and carries what was written. The ID must not overwrite a header, and must
/// not make another marker.
pub proof fn stamping_is_idempotent(d: Seq<u8>, id: Seq<u8>)
    requires
        id.len() == LEN,
        id_of(d) is Ok,
        ({
            let segments = loaded(d)->Ok_0.1;
            let at = id_place(d, segments)->Ok_0;
            &&& forall|i: int| at <= i < at + LEN ==> !#[trigger] in_headers(headers(d)->Ok_0, i)
            &&& ids(bytes::splice(d, at, id), segments, segments.len()).len() == 1
        }),
    ensures
        ({
            let at = id_place(d, loaded(d)->Ok_0.1)->Ok_0;
            let after = bytes::splice(d, at, id);
            id_of(after) == id_of(d) && carried(after) == Ok::<Seq<u8>, Seq<char>>(id)
        }),
{
    let segments = loaded(d)->Ok_0.1;
    let at = id_place(d, segments)->Ok_0;
    let after = bytes::splice(d, at, id);
    assert forall|i: int| 0 <= i < d.len() && #[trigger] d[i] != after[i] implies is_uncovered(d, i) by {
        assert(at <= i < at + LEN);
        assert(!in_headers(headers(d)->Ok_0, i));
    }
    uncovered_bytes_do_not_count(d, after);
    segments_are_inside(d, headers(d)->Ok_0, 0);
    places_are_inside(d, segments);
    assert(after.subrange(at, at + LEN) =~= id);
}

/// Whether a segment holds a marker that ends at `at`.
spec fn marked(d: Seq<u8>, s: Segment, at: int) -> bool {
    bytes::stands_at(contents(d, s), at - s.offset - MARKER@.len(), MARKER@)
}

proof fn same_headers(d: Seq<u8>, e: Seq<u8>, h: Headers, i: int)
    requires
        d.len() == e.len(),
        h.start >= 0,
        h.step >= 0,
        i >= 0,
        forall|x: int| 0 <= x < d.len() && in_headers(h, x) ==> #[trigger] d[x] == e[x],
    ensures
        segments_from(e, h, i) == segments_from(d, h, i),
    decreases h.count - i,
{
    if i < h.count {
        same_headers(d, e, h, i + 1);
        let at = header_at(h, i);
        assert(i * h.step >= 0) by (nonlinear_arith)
            requires
                i >= 0,
                h.step >= 0,
        ;
        if at + header_reach(h.wide) <= d.len() {
            assert forall|x: int| at <= x < at + header_reach(h.wide) implies #[trigger] d[x] == e[x] by {
                assert(in_headers(h, x));
            }
            assert(segment_at(d, h.wide, at) == segment_at(e, h.wide, at));
        }
    }
}

proof fn places_are_where_it_stands(hay: Seq<u8>, needle: Seq<u8>, i: int)
    requires
        i >= 0,
    ensures
        forall|k: int|
            0 <= k < bytes::places(hay, needle, i).len() ==> bytes::stands_at(
                hay,
                #[trigger] bytes::places(hay, needle, i)[k],
                needle,
            ),
    decreases hay.len() - i,
{
    if i < hay.len() && i + needle.len() <= hay.len() {
        places_are_where_it_stands(hay, needle, i + 1);
        let rest = bytes::places(hay, needle, i + 1);
        let all = bytes::places(hay, needle, i);
        assert forall|k: int| 0 <= k < all.len() implies bytes::stands_at(hay, #[trigger] all[k], needle) by {
            if bytes::stands_at(hay, i, needle) {
                assert(all == seq![i] + rest);
                if k > 0 {
                    assert(all[k] == rest[k - 1]);
                }
            } else {
                assert(all == rest);
            }
        }
    }
}

proof fn where_it_stands_is_a_place(hay: Seq<u8>, needle: Seq<u8>, i: int, p: int)
    requires
        0 <= i <= p,
        needle.len() > 0,
        bytes::stands_at(hay, p, needle),
    ensures
        bytes::places(hay, needle, i).contains(p),
    decreases p - i,
{
    let all = bytes::places(hay, needle, i);
    if i == p {
        assert(all[0] == p);
    } else {
        where_it_stands_is_a_place(hay, needle, i + 1, p);
        let rest = bytes::places(hay, needle, i + 1);
        let k = rest.index_of(p);
        if bytes::stands_at(hay, i, needle) {
            assert(all[k + 1] == p);
        } else {
            assert(all[k] == p);
        }
    }
}

proof fn marker_of(d: Seq<u8>, segments: Seq<Segment>, n: nat, x: int)
    requires
        n <= segments.len(),
        0 <= x < ids(d, segments, n).len(),
    ensures
        exists|k: int| 0 <= k < n && #[trigger] marked(d, segments[k], ids(d, segments, n)[x]),
    decreases n,
{
    let before = ids(d, segments, (n - 1) as nat);
    let s = segments[n - 1];
    if x < before.len() {
        marker_of(d, segments, (n - 1) as nat, x);
        assert(ids(d, segments, n)[x] == before[x]);
        let k = choose|k: int| 0 <= k < n - 1 && #[trigger] marked(d, segments[k], before[x]);
        assert(marked(d, segments[k], ids(d, segments, n)[x]));
    } else {
        let places = bytes::places(contents(d, s), MARKER@, 0);
        places_are_where_it_stands(contents(d, s), MARKER@, 0);
        assert(ids(d, segments, n)[x] == ids_in(d, s)[x - before.len()]);
        assert(ids_in(d, s)[x - before.len()] == s.offset + places[x - before.len()] + MARKER@.len());
        assert(marked(d, segments[n - 1], ids(d, segments, n)[x]));
    }
}

proof fn marked_is_found(d: Seq<u8>, segments: Seq<Segment>, n: nat, k: int, at: int)
    requires
        0 <= k < n <= segments.len(),
        marked(d, segments[k], at),
    ensures
        ids(d, segments, n).contains(at),
    decreases n,
{
    let before = ids(d, segments, (n - 1) as nat);
    let all = ids(d, segments, n);
    let s = segments[k];
    if k < n - 1 {
        marked_is_found(d, segments, (n - 1) as nat, k, at);
        assert(all[before.index_of(at)] == at);
    } else {
        let p = at - s.offset - MARKER@.len();
        let places = bytes::places(contents(d, s), MARKER@, 0);
        where_it_stands_is_a_place(contents(d, s), MARKER@, 0, p);
        let x = places.index_of(p);
        assert(ids_in(d, s)[x] == at);
        assert(all[before.len() + x] == at);
    }
}

proof fn same_but_for_the_id(d: Seq<u8>, e: Seq<u8>, entry: int, segments: Seq<Segment>, at: int, n: nat)
    requires
        n <= segments.len(),
        d.len() == e.len(),
        all_inside(d, segments),
        forall|i: int|
            0 <= i < d.len() && in_segments(segments, i) && !(at <= i < at + LEN) ==> #[trigger] d[i] == e[i],
    ensures
        message(d, entry, segments, at, n) == message(e, entry, segments, at, n),
    decreases n,
{
    if n > 0 {
        let s = segments[n - 1];
        same_but_for_the_id(d, e, entry, segments, at, (n - 1) as nat);
        let (x, y) = (masked(d, s, at), masked(e, s, at));
        assert forall|j: int| 0 <= j < s.filesz implies #[trigger] x[j] == y[j] by {
            assert(in_segments(segments, s.offset + j));
        }
        assert(x =~= y);
    }
}

proof fn segments_are_inside(d: Seq<u8>, h: Headers, i: int)
    requires
        h.start >= 0,
        h.step >= 0,
        i >= 0,
    ensures
        segments_from(d, h, i) is Ok ==> all_inside(d, segments_from(d, h, i)->Ok_0),
    decreases h.count - i,
{
    if i < h.count {
        segments_are_inside(d, h, i + 1);
    }
}

proof fn places_are_inside(d: Seq<u8>, segments: Seq<Segment>)
    requires
        all_inside(d, segments),
    ensures
        id_place(d, segments) is Ok ==> id_place(d, segments)->Ok_0 >= 0,
{
    ids_are_natural(d, segments, segments.len());
}

proof fn ids_are_natural(d: Seq<u8>, segments: Seq<Segment>, n: nat)
    requires
        all_inside(d, segments),
        n <= segments.len(),
    ensures
        forall|k: int| 0 <= k < ids(d, segments, n).len() ==> #[trigger] ids(d, segments, n)[k] >= 0,
    decreases n,
{
    if n > 0 {
        ids_are_natural(d, segments, (n - 1) as nat);
        places_are_natural(contents(d, segments[n - 1]), MARKER@, 0);
        let (a, b) = (ids(d, segments, (n - 1) as nat), ids_in(d, segments[n - 1]));
        assert forall|k: int| 0 <= k < (a + b).len() implies #[trigger] (a + b)[k] >= 0 by {
            if k >= a.len() {
                assert(b[k - a.len()] == segments[n - 1].offset + bytes::places(
                    contents(d, segments[n - 1]),
                    MARKER@,
                    0,
                )[k - a.len()] + MARKER@.len());
            }
        }
    }
}

proof fn places_are_natural(hay: Seq<u8>, needle: Seq<u8>, i: int)
    requires
        i >= 0,
    ensures
        forall|k: int| 0 <= k < bytes::places(hay, needle, i).len() ==> #[trigger] bytes::places(hay, needle, i)[k] >= 0,
    decreases hay.len() - i,
{
    if i < hay.len() && i + needle.len() <= hay.len() {
        places_are_natural(hay, needle, i + 1);
        let rest = bytes::places(hay, needle, i + 1);
        assert forall|k: int| 0 <= k < bytes::places(hay, needle, i).len() implies #[trigger] bytes::places(
            hay,
            needle,
            i,
        )[k] >= 0 by {
            if bytes::stands_at(hay, i, needle) {
                assert(bytes::places(hay, needle, i) == seq![i] + rest);
                if k > 0 {
                    assert(bytes::places(hay, needle, i)[k] == rest[k - 1]);
                }
            } else {
                assert(bytes::places(hay, needle, i) == rest);
            }
        }
    }
}

/// Only what the machine loads is covered: a change that alters no loaded byte, and nothing the
/// headers say of what is loaded, keeps the ID.
pub proof fn only_what_is_loaded_is_covered(d: Seq<u8>, e: Seq<u8>)
    requires
        id_of(d) is Ok,
        id_of(e) is Ok,
        loaded(d) == loaded(e),
        forall|i: int|
            0 <= i < loaded(d)->Ok_0.1.len() ==> contents(d, #[trigger] loaded(d)->Ok_0.1[i]) == contents(
                e,
                loaded(d)->Ok_0.1[i],
            ),
    ensures
        id_of(d) == id_of(e),
{
    let (entry, segments) = loaded(d)->Ok_0;
    segments_are_inside(d, headers(d)->Ok_0, 0);
    segments_are_inside(e, headers(e)->Ok_0, 0);
    same_ids(d, e, segments, segments.len());
    same_message(d, e, entry, segments, id_place(d, segments)->Ok_0, segments.len());
}

proof fn same_ids(d: Seq<u8>, e: Seq<u8>, segments: Seq<Segment>, n: nat)
    requires
        n <= segments.len(),
        forall|i: int| 0 <= i < segments.len() ==> contents(d, #[trigger] segments[i]) == contents(e, segments[i]),
    ensures
        ids(d, segments, n) == ids(e, segments, n),
    decreases n,
{
    if n > 0 {
        same_ids(d, e, segments, (n - 1) as nat);
        assert(contents(d, segments[n - 1]) == contents(e, segments[n - 1]));
    }
}

proof fn same_message(d: Seq<u8>, e: Seq<u8>, entry: int, segments: Seq<Segment>, at: int, n: nat)
    requires
        n <= segments.len(),
        all_inside(d, segments),
        all_inside(e, segments),
        forall|i: int| 0 <= i < segments.len() ==> contents(d, #[trigger] segments[i]) == contents(e, segments[i]),
    ensures
        message(d, entry, segments, at, n) == message(e, entry, segments, at, n),
    decreases n,
{
    if n > 0 {
        let s = segments[n - 1];
        same_message(d, e, entry, segments, at, (n - 1) as nat);
        let (x, y) = (masked(d, s, at), masked(e, s, at));
        assert forall|j: int| 0 <= j < s.filesz implies #[trigger] x[j] == y[j] by {
            assert(contents(d, s)[j] == contents(e, s)[j]);
        }
        assert(x =~= y);
    }
}

/// What is hashed of one segment.
pub open spec fn said_of(d: Seq<u8>, s: Segment, at: int) -> Seq<u8> {
    bytes::le64_bytes(s.vaddr) + bytes::le64_bytes(s.memsz) + bytes::le32_bytes(s.flags) + bytes::le64_bytes(s.filesz)
        + masked(d, s, at)
}

/// What is hashed of segments, from the first on.
pub open spec fn said(d: Seq<u8>, segments: Seq<Segment>, at: int) -> Seq<u8>
    decreases segments.len(),
{
    if segments.len() == 0 {
        seq![]
    } else {
        said_of(d, segments[0], at) + said(d, segments.drop_first(), at)
    }
}

proof fn said_of_the_last(d: Seq<u8>, segments: Seq<Segment>, at: int)
    requires
        segments.len() > 0,
    ensures
        said(d, segments, at) == said(d, segments.drop_last(), at) + said_of(d, segments.last(), at),
    decreases segments.len(),
{
    if segments.len() == 1 {
        assert(said(d, segments.drop_last(), at) =~= seq![]);
        assert(said(d, segments.drop_first(), at) =~= seq![]);
        assert(said(d, segments, at) =~= said_of(d, segments.last(), at));
    } else {
        let rest = segments.drop_first();
        said_of_the_last(d, rest, at);
        assert(rest.drop_last() =~= segments.drop_last().drop_first());
        assert(rest.last() == segments.last());
        assert(said(d, segments, at) =~= said(d, segments.drop_last(), at) + said_of(d, segments.last(), at));
    }
}

proof fn message_says(d: Seq<u8>, entry: int, segments: Seq<Segment>, at: int, n: nat)
    requires
        n <= segments.len(),
    ensures
        message(d, entry, segments, at, n) == PREFIX@ + bytes::le64_bytes(entry) + said(
            d,
            segments.subrange(0, n as int),
            at,
        ),
    decreases n,
{
    let part = segments.subrange(0, n as int);
    if n == 0 {
        assert(said(d, part, at) =~= seq![]);
        assert(message(d, entry, segments, at, 0) =~= PREFIX@ + bytes::le64_bytes(entry) + said(d, part, at));
    } else {
        message_says(d, entry, segments, at, (n - 1) as nat);
        said_of_the_last(d, part, at);
        assert(part.drop_last() =~= segments.subrange(0, n - 1));
        assert(part.last() == segments[n - 1]);
        assert(message(d, entry, segments, at, n) =~= PREFIX@ + bytes::le64_bytes(entry) + said(d, part, at));
    }
}

/// Whether what a segment says fits the width in which it is hashed.
pub open spec fn hashable(s: Segment) -> bool {
    &&& 0 <= s.vaddr < 0x1_0000_0000_0000_0000
    &&& 0 <= s.memsz < 0x1_0000_0000_0000_0000
    &&& 0 <= s.flags < 0x1_0000_0000
    &&& 0 <= s.filesz < 0x1_0000_0000_0000_0000
}

proof fn segments_are_hashable(d: Seq<u8>, h: Headers, i: int)
    ensures
        segments_from(d, h, i) is Ok ==> forall|k: int|
            0 <= k < segments_from(d, h, i)->Ok_0.len() ==> hashable(#[trigger] segments_from(d, h, i)->Ok_0[k]),
    decreases h.count - i,
{
    if 0 <= i < h.count {
        segments_are_hashable(d, h, i + 1);
    }
}

proof fn said_of_one_says_one(
    d: Seq<u8>,
    e: Seq<u8>,
    s: Segment,
    t: Segment,
    at: int,
    to: int,
    r: Seq<u8>,
    q: Seq<u8>,
)
    requires
        hashable(s),
        hashable(t),
        said_of(d, s, at) + r == said_of(e, t, to) + q,
    ensures
        s.vaddr == t.vaddr,
        s.memsz == t.memsz,
        s.flags == t.flags,
        s.filesz == t.filesz,
        masked(d, s, at) == masked(e, t, to),
        r == q,
{
    let (m, n) = (masked(d, s, at), masked(e, t, to));
    let (x, y) = (m + r, n + q);
    let (x1, y1) = (bytes::le64_bytes(s.filesz) + x, bytes::le64_bytes(t.filesz) + y);
    let (x2, y2) = (bytes::le32_bytes(s.flags) + x1, bytes::le32_bytes(t.flags) + y1);
    let (x3, y3) = (bytes::le64_bytes(s.memsz) + x2, bytes::le64_bytes(t.memsz) + y2);
    bytes::joined_from_the_right(
        bytes::le64_bytes(s.vaddr),
        bytes::le64_bytes(s.memsz),
        bytes::le32_bytes(s.flags),
        bytes::le64_bytes(s.filesz),
        m,
        r,
    );
    bytes::joined_from_the_right(
        bytes::le64_bytes(t.vaddr),
        bytes::le64_bytes(t.memsz),
        bytes::le32_bytes(t.flags),
        bytes::le64_bytes(t.filesz),
        n,
        q,
    );
    bytes::le64_keeps_apart(s.vaddr, t.vaddr, x3, y3);
    bytes::le64_keeps_apart(s.memsz, t.memsz, x2, y2);
    bytes::le32_keeps_apart(s.flags, t.flags, x1, y1);
    bytes::le64_keeps_apart(s.filesz, t.filesz, x, y);
    bytes::parts_keep_apart(m, n, r, q);
}

proof fn said_says(d: Seq<u8>, e: Seq<u8>, a: Seq<Segment>, b: Seq<Segment>, at: int, to: int)
    requires
        forall|i: int| 0 <= i < a.len() ==> hashable(#[trigger] a[i]),
        forall|i: int| 0 <= i < b.len() ==> hashable(#[trigger] b[i]),
        said(d, a, at) == said(e, b, to),
    ensures
        a.len() == b.len(),
        forall|i: int|
            0 <= i < a.len() ==> (#[trigger] a[i]).vaddr == b[i].vaddr && a[i].memsz == b[i].memsz && a[i].flags
                == b[i].flags && a[i].filesz == b[i].filesz && masked(d, a[i], at) == masked(e, b[i], to),
    decreases a.len(),
{
    if a.len() > 0 {
        assert(said(d, a, at).len() >= 28);
    }
    if b.len() > 0 {
        assert(said(e, b, to).len() >= 28);
    }
    if a.len() > 0 && b.len() > 0 {
        let (x, y) = (a.drop_first(), b.drop_first());
        said_of_one_says_one(d, e, a[0], b[0], at, to, said(d, x, at), said(e, y, to));
        assert forall|i: int| 0 <= i < x.len() implies hashable(#[trigger] x[i]) by {
            assert(x[i] == a[i + 1]);
        }
        assert forall|i: int| 0 <= i < y.len() implies hashable(#[trigger] y[i]) by {
            assert(y[i] == b[i + 1]);
        }
        said_says(d, e, x, y, at, to);
        assert forall|i: int| 0 <= i < a.len() implies (#[trigger] a[i]).vaddr == b[i].vaddr && a[i].memsz
            == b[i].memsz && a[i].flags == b[i].flags && a[i].filesz == b[i].filesz && masked(d, a[i], at)
            == masked(e, b[i], to) by {
            if i > 0 {
                assert(x[i - 1] == a[i] && y[i - 1] == b[i]);
            }
        }
    }
}

/// Two images of which the same is hashed start at the same place and load the same bytes at the
/// same addresses, but for the ID. So images with one ID do, as far as the hash tells messages
/// apart.
pub proof fn images_of_one_message_load_the_same(d: Seq<u8>, e: Seq<u8>, at: int, to: int)
    requires
        loaded(d) is Ok,
        loaded(e) is Ok,
        ({
            let ((p, a), (q, b)) = (loaded(d)->Ok_0, loaded(e)->Ok_0);
            message(d, p, a, at, a.len()) == message(e, q, b, to, b.len())
        }),
    ensures
        ({
            let ((p, a), (q, b)) = (loaded(d)->Ok_0, loaded(e)->Ok_0);
            &&& p == q
            &&& a.len() == b.len()
            &&& forall|i: int|
                0 <= i < a.len() ==> (#[trigger] a[i]).vaddr == b[i].vaddr && a[i].memsz == b[i].memsz && a[i].flags
                    == b[i].flags && a[i].filesz == b[i].filesz && masked(d, a[i], at) == masked(e, b[i], to)
        }),
{
    let ((p, a), (q, b)) = (loaded(d)->Ok_0, loaded(e)->Ok_0);
    message_says(d, p, a, at, a.len());
    message_says(e, q, b, to, b.len());
    assert(a.subrange(0, a.len() as int) =~= a);
    assert(b.subrange(0, b.len() as int) =~= b);
    let (x, y) = (message(d, p, a, at, a.len()), message(e, q, b, to, b.len()));
    assert(bytes::le64_bytes(p) + said(d, a, at) =~= x.subrange(PREFIX@.len() as int, x.len() as int));
    assert(bytes::le64_bytes(q) + said(e, b, to) =~= y.subrange(PREFIX@.len() as int, y.len() as int));
    bytes::le64_keeps_apart(p, q, said(d, a, at), said(e, b, to));
    segments_are_hashable(d, headers(d)->Ok_0, 0);
    segments_are_hashable(e, headers(e)->Ok_0, 0);
    said_says(d, e, a, b, at, to);
}

} // verus!
