//! The bootable disk of the BIOS loader.
//!
//! The disk begins with the loader's flat binary: one sector of stage 1, with a table that says
//! where stage 2 is and a partition entry, and stage 2 with its header. Behind it stand the boot
//! entries and the kernel image, each with its CRC-32 in the header, and with a chainload test its
//! record as a partition of its own.

use vstd::prelude::*;
use vstd::string::*;

use crate::bytes;
use crate::crc;
use crate::digest;
use crate::digest::Sha256;
use crate::text;

verus! {

/// The configuration symbol that selects this boot path.
pub const SYMBOL: &'static str = "KINBOOT_BIOS";

/// Bytes in a sector.
pub const SECTOR: usize = 512;

/// Bytes of stage 1 that may hold code and its table: what follows is the disk signature and the
/// partition table.
pub const MBR_CODE_BYTES: usize = 440;

/// Where stage 1's table stands: a magic, the sector of stage 2, and how many sectors it takes.
pub const STAGE1_TABLE_OFFSET: usize = 424;

pub const DISK_SIGNATURE_OFFSET: usize = 440;

pub const PARTITION_TABLE_OFFSET: usize = 446;

pub const PARTITION_ENTRY_BYTES: usize = 16;

/// The sector that stage 2 begins at.
pub const STAGE2_LBA: u32 = 1;

/// The most sectors that stage 2 may take.
pub const STAGE2_MAX_SECTORS: u32 = 64;

/// The partition that the chainload test record is written to, and the test entry boots.
pub const CHAIN_PARTITION: u8 = 2;

/// Partition type for the test record's partition: reserved for "alternative OS development", so
/// no tool mistakes it for a filesystem.
pub const CHAIN_PARTITION_TYPE: u8 = 0x7F;

/// The drive that the loader is started from under QEMU, which the test record requires in `DL`:
/// the first hard disk.
pub const CHAIN_TEST_DRIVE: u8 = 0x80;

/// Where the test record's table stands: `KBCT`, the expected drive, the expected sector.
pub const CHAIN_TABLE_OFFSET: usize = 0x1A0;

/// Sectors in a cylinder of 16 heads and 63 sectors: the geometry that BIOSes take a small disk to
/// have. An image smaller than one cylinder has none, and some BIOSes refuse to read such a disk.
pub const CYLINDER: usize = 1008;

/// What the loader fixes of the disk it reads.
#[derive(Clone, Copy)]
pub struct Layout {
    pub stage1_magic: [u8; 4],
    pub stage2_magic: [u8; 4],
    /// Where the header stands in stage 2.
    pub stage2_header_offset: usize,
    /// The most bytes of boot entries that the loader reads.
    pub config_max_bytes: u32,
    pub partition_type: u8,
}

/// How many sectors hold `n` bytes.
pub open spec fn sectors_for(n: int) -> int {
    (n + SECTOR - 1) / SECTOR as int
}

fn count_sectors(n: usize) -> (r: usize)
    ensures
        r == sectors_for(n as int),
{
    if n % SECTOR == 0 {
        n / SECTOR
    } else {
        n / SECTOR + 1
    }
}

/// The first sector of the boot entries, of the kernel, and behind the kernel.
pub open spec fn config_lba(loader: Seq<u8>) -> int {
    STAGE2_LBA + sectors_for(loader.len() - SECTOR)
}

pub open spec fn kernel_lba(loader: Seq<u8>, entries: Seq<u8>) -> int {
    config_lba(loader) + sectors_for(entries.len() as int)
}

pub open spec fn chain_lba(loader: Seq<u8>, kernel: Seq<u8>, entries: Seq<u8>) -> int {
    kernel_lba(loader, entries) + sectors_for(kernel.len() as int)
}

/// How many sectors the disk has: whole cylinders.
pub open spec fn total_sectors(loader: Seq<u8>, kernel: Seq<u8>, entries: Seq<u8>, chained: bool) -> int {
    let used = chain_lba(loader, kernel, entries) + if chained {
        1int
    } else {
        0
    };
    (used + CYLINDER - 1) / CYLINDER as int * CYLINDER
}

/// Why stage 1 is refused, if it is.
pub open spec fn stage1_wrong(loader: Seq<u8>, l: Layout) -> Option<Seq<char>> {
    if loader.len() <= SECTOR {
        Some("kinboot-bios: the loader has no stage 2"@)
    } else if loader[510] != 0x55 || loader[511] != 0xAA {
        Some("kinboot-bios: stage 1 does not end in the 0x55AA signature"@)
    } else if exists|i: int| MBR_CODE_BYTES <= i < 510 && #[trigger] loader[i] != 0 {
        Some("kinboot-bios: stage 1 writes into the disk signature or partition table"@)
    } else if sectors_for(loader.len() - SECTOR) > STAGE2_MAX_SECTORS {
        Some(
            "kinboot-bios: stage 2 is "@ + text::decimal(loader.len() - SECTOR) + " bytes, over its 32 KiB budget"@,
        )
    } else if !bytes::stands_at(loader, STAGE1_TABLE_OFFSET as int, l.stage1_magic@) {
        Some("kinboot-bios: stage 1 table not where the disk format expects: BadMagic"@)
    } else {
        None
    }
}

/// Why what follows stage 1 is refused, if it is.
pub open spec fn rest_wrong(loader: Seq<u8>, kernel: Seq<u8>, entries: Seq<u8>, l: Layout) -> Option<Seq<char>> {
    let stage2 = loader.subrange(SECTOR as int, loader.len() as int);
    if entries.len() > l.config_max_bytes {
        Some(
            "kinboot-bios: the boot entries are "@ + text::decimal(entries.len() as int) + " bytes, over the "@
                + text::decimal(l.config_max_bytes as int) + " the loader reads"@,
        )
    } else if kernel.len() > u32::MAX {
        Some("kinboot-bios: the kernel image is over 4 GiB"@)
    } else if l.stage2_header_offset + 28 > sectors_for(stage2.len() as int) * SECTOR {
        Some("kinboot-bios: stage 2 header not where the disk format expects: TooShort"@)
    } else if !bytes::stands_at(padded(stage2), l.stage2_header_offset as int, l.stage2_magic@) {
        Some("kinboot-bios: stage 2 header not where the disk format expects: BadMagic"@)
    } else {
        None
    }
}

/// Why a chainload test record is refused, if it is.
pub open spec fn record_wrong(record: Seq<u8>) -> Option<Seq<char>> {
    if record.len() != SECTOR || record[510] != 0x55 || record[511] != 0xAA {
        Some("kinboot-bios: the chain test record is not one signed sector"@)
    } else if !bytes::stands_at(record, CHAIN_TABLE_OFFSET as int, seq![75u8, 66, 67, 84]) {
        Some("kinboot-bios: the chain test record's table is not where kbuild expects"@)
    } else {
        None
    }
}

/// Bytes, and zeros up to a whole number of sectors.
pub open spec fn padded(b: Seq<u8>) -> Seq<u8> {
    b + bytes::zeros((sectors_for(b.len() as int) * SECTOR - b.len()) as nat)
}

/// The fields of stage 2's header, behind its magic: where the kernel is, its length and CRC, and
/// the same of the boot entries.
pub open spec fn header_fields(loader: Seq<u8>, kernel: Seq<u8>, entries: Seq<u8>) -> Seq<u8> {
    bytes::le32_bytes(kernel_lba(loader, entries)) + bytes::le32_bytes(kernel.len() as int) + bytes::le32_bytes(
        crc::crc_of(kernel) as int,
    ) + bytes::le32_bytes(config_lba(loader)) + bytes::le32_bytes(entries.len() as int) + bytes::le32_bytes(
        crc::crc_of(entries) as int,
    )
}

/// Stage 2 as it is written.
#[verifier::opaque]
pub open spec fn stage2_of(loader: Seq<u8>, kernel: Seq<u8>, entries: Seq<u8>, l: Layout) -> Seq<u8> {
    bytes::splice(
        padded(loader.subrange(SECTOR as int, loader.len() as int)),
        l.stage2_header_offset + 4,
        header_fields(loader, kernel, entries),
    )
}

/// A test record with its table filled in: the drive and sector that it must be entered with.
pub open spec fn record_of(record: Seq<u8>, lba: int) -> Seq<u8> {
    bytes::splice(record, CHAIN_TABLE_OFFSET + 4, seq![CHAIN_TEST_DRIVE] + bytes::le32_bytes(lba))
}

/// A partition entry. The cylinder fields hold the value that means "use the sector number".
pub open spec fn partition_entry(active: bool, kind: u8, start: int, sectors: int) -> Seq<u8> {
    seq![
        if active {
            0x80u8
        } else {
            0
        },
        0xFE,
        0xFF,
        0xFF,
        kind,
        0xFE,
        0xFF,
        0xFF,
    ] + bytes::le32_bytes(start) + bytes::le32_bytes(sectors)
}

/// What the disk signature is taken from, so that the image is reproducible and two different
/// builds do not claim to be the same disk.
pub open spec fn signed(stage2: Seq<u8>, kernel: Seq<u8>, entries: Seq<u8>, record: Option<Seq<u8>>) -> Seq<u8> {
    stage2 + entries + kernel + match record {
        Some(r) => r,
        None => seq![],
    }
}

/// Stage 1 as it is written: with its table, the disk signature, one active partition that covers
/// stage 2, the entries and the kernel, and with a test record a second one that holds just it.
#[verifier::opaque]
pub open spec fn stage1_of(
    loader: Seq<u8>,
    kernel: Seq<u8>,
    entries: Seq<u8>,
    record: Option<Seq<u8>>,
    l: Layout,
) -> Seq<u8> {
    let lba = chain_lba(loader, kernel, entries);
    let end = if record is Some {
        lba
    } else {
        total_sectors(loader, kernel, entries, false)
    };
    let table = bytes::le32_bytes(STAGE2_LBA as int) + bytes::le16_bytes(sectors_for(loader.len() - SECTOR));
    let with_table = bytes::splice(loader.subrange(0, SECTOR as int), STAGE1_TABLE_OFFSET + 4, table);
    let signature = digest::sha256(signed(stage2_of(loader, kernel, entries, l), kernel, entries, record)).subrange(0, 4);
    let with_signature = bytes::splice(with_table, DISK_SIGNATURE_OFFSET as int, signature);
    let first = bytes::splice(
        with_signature,
        PARTITION_TABLE_OFFSET as int,
        partition_entry(true, l.partition_type, STAGE2_LBA as int, end - 1),
    );
    if record is Some {
        bytes::splice(
            first,
            PARTITION_TABLE_OFFSET + PARTITION_ENTRY_BYTES,
            partition_entry(false, CHAIN_PARTITION_TYPE, lba, 1),
        )
    } else {
        first
    }
}

/// The test record as it is written, if there is one.
pub open spec fn written_record(loader: Seq<u8>, kernel: Seq<u8>, entries: Seq<u8>, chain: Option<Seq<u8>>) -> Option<
    Seq<u8>,
> {
    match chain {
        Some(r) => Some(record_of(r, chain_lba(loader, kernel, entries))),
        None => None,
    }
}

/// The disk up to where the zeros that fill it begin.
pub open spec fn contents(
    loader: Seq<u8>,
    kernel: Seq<u8>,
    entries: Seq<u8>,
    chain: Option<Seq<u8>>,
    l: Layout,
) -> Seq<u8> {
    let record = written_record(loader, kernel, entries, chain);
    let front = stage1_of(loader, kernel, entries, record, l) + stage2_of(loader, kernel, entries, l) + padded(entries)
        + padded(kernel);
    match record {
        Some(r) => front + r,
        None => front,
    }
}

/// The whole disk.
pub open spec fn disk_of(
    loader: Seq<u8>,
    kernel: Seq<u8>,
    entries: Seq<u8>,
    chain: Option<Seq<u8>>,
    l: Layout,
) -> Seq<u8> {
    let full = contents(loader, kernel, entries, chain, l);
    full + bytes::zeros(
        (total_sectors(loader, kernel, entries, chain is Some) * SECTOR - full.len()) as nat,
    )
}

/// The disk, or why there is none.
pub open spec fn assembled(
    loader: Seq<u8>,
    kernel: Seq<u8>,
    entries: Seq<u8>,
    chain: Option<Seq<u8>>,
    l: Layout,
) -> Result<Seq<u8>, Seq<char>> {
    if stage1_wrong(loader, l) is Some {
        Err(stage1_wrong(loader, l)->0)
    } else if rest_wrong(loader, kernel, entries, l) is Some {
        Err(rest_wrong(loader, kernel, entries, l)->0)
    } else if chain is Some && record_wrong(chain->0) is Some {
        Err(record_wrong(chain->0)->0)
    } else {
        Ok(disk_of(loader, kernel, entries, chain, l))
    }
}

// ---- writing it ----

fn check_stage1(loader: &[u8], l: &Layout) -> (r: Option<String>)
    ensures
        match r {
            Some(e) => stage1_wrong(loader@, *l) == Some(e@),
            None => stage1_wrong(loader@, *l) == None::<Seq<char>>,
        },
{
    if loader.len() <= SECTOR {
        return Some("kinboot-bios: the loader has no stage 2".to_owned());
    }
    if loader[510] != 0x55 || loader[511] != 0xAA {
        return Some("kinboot-bios: stage 1 does not end in the 0x55AA signature".to_owned());
    }
    let mut i: usize = MBR_CODE_BYTES;
    while i < 510
        invariant
            MBR_CODE_BYTES <= i <= 510,
            loader@.len() > SECTOR,
            loader@[510] == 0x55 && loader@[511] == 0xAA,
            forall|k: int| MBR_CODE_BYTES <= k < i ==> #[trigger] loader@[k] == 0,
        decreases 510 - i,
    {
        if loader[i] != 0 {
            assert(loader@[i as int] != 0);
            return Some("kinboot-bios: stage 1 writes into the disk signature or partition table".to_owned());
        }
        i += 1;
    }
    let size: usize = loader.len() - SECTOR;
    if count_sectors(size) > STAGE2_MAX_SECTORS as usize {
        let mut m = "kinboot-bios: stage 2 is ".to_owned();
        m.append(text::int_text(size as i128).as_str());
        m.append(" bytes, over its 32 KiB budget");
        return Some(m);
    }
    if !bytes::bytes_at(loader, STAGE1_TABLE_OFFSET, l.stage1_magic.as_slice()) {
        return Some("kinboot-bios: stage 1 table not where the disk format expects: BadMagic".to_owned());
    }
    None
}

fn pad_sector(v: &mut Vec<u8>)
    requires
        sectors_for(old(v)@.len() as int) * SECTOR <= usize::MAX,
    ensures
        final(v)@ == padded(old(v)@),
{
    let ghost before = v@;
    let n: usize = count_sectors(v.len()) * SECTOR;
    assert(v@ =~= before + bytes::zeros(0));
    while v.len() < n
        invariant
            before.len() <= v@.len() <= n,
            v@ == before + bytes::zeros((v@.len() - before.len()) as nat),
        decreases n - v@.len(),
    {
        v.push(0);
        assert(v@ =~= before + bytes::zeros((v@.len() - before.len()) as nat));
    }
}

fn check_rest(stage2: &Vec<u8>, loader: &[u8], kernel: &[u8], entries: &[u8], l: &Layout) -> (r: Option<String>)
    requires
        loader@.len() > SECTOR,
        stage2@ == padded(loader@.subrange(SECTOR as int, loader@.len() as int)),
    ensures
        match r {
            Some(e) => rest_wrong(loader@, kernel@, entries@, *l) == Some(e@),
            None => rest_wrong(loader@, kernel@, entries@, *l) == None::<Seq<char>>,
        },
{
    if entries.len() as u64 > l.config_max_bytes as u64 {
        let mut m = "kinboot-bios: the boot entries are ".to_owned();
        m.append(text::int_text(entries.len() as i128).as_str());
        m.append(" bytes, over the ");
        m.append(text::int_text(l.config_max_bytes as i128).as_str());
        m.append(" the loader reads");
        return Some(m);
    }
    if kernel.len() as u64 > u32::MAX as u64 {
        return Some("kinboot-bios: the kernel image is over 4 GiB".to_owned());
    }
    if stage2.len() < 28 || l.stage2_header_offset > stage2.len() - 28 {
        return Some("kinboot-bios: stage 2 header not where the disk format expects: TooShort".to_owned());
    }
    if !bytes::bytes_at(stage2.as_slice(), l.stage2_header_offset, l.stage2_magic.as_slice()) {
        return Some("kinboot-bios: stage 2 header not where the disk format expects: BadMagic".to_owned());
    }
    None
}

fn check_record(record: &[u8]) -> (r: Option<String>)
    ensures
        match r {
            Some(e) => record_wrong(record@) == Some(e@),
            None => record_wrong(record@) == None::<Seq<char>>,
        },
{
    if record.len() != SECTOR || record[510] != 0x55 || record[511] != 0xAA {
        return Some("kinboot-bios: the chain test record is not one signed sector".to_owned());
    }
    let magic: [u8; 4] = [75, 66, 67, 84];
    assert(magic@ =~= seq![75u8, 66, 67, 84]);
    if !bytes::bytes_at(record, CHAIN_TABLE_OFFSET, magic.as_slice()) {
        return Some("kinboot-bios: the chain test record's table is not where kbuild expects".to_owned());
    }
    None
}

/// The chain test record with its table filled in: the drive and sector that it must be entered
/// with.
pub fn chain_record(record: &[u8], lba: u32) -> (r: Result<Vec<u8>, String>)
    ensures
        match r {
            Ok(v) => record_wrong(record@) is None && v@ == record_of(record@, lba as int),
            Err(e) => record_wrong(record@) == Some(e@),
        },
{
    if let Some(e) = check_record(record) {
        return Err(e);
    }
    let mut v: Vec<u8> = Vec::new();
    bytes::push_all(&mut v, record);
    assert(v@ =~= record@);
    let mut t: Vec<u8> = Vec::new();
    t.push(CHAIN_TEST_DRIVE);
    bytes::push_le32(&mut t, lba);
    assert(t@ =~= seq![CHAIN_TEST_DRIVE] + bytes::le32_bytes(lba as int));
    bytes::copy_at(&mut v, CHAIN_TABLE_OFFSET + 4, t.as_slice());
    Ok(v)
}

fn make_entry(active: bool, kind: u8, start: u32, sectors: u32) -> (r: Vec<u8>)
    ensures
        r@ == partition_entry(active, kind, start as int, sectors as int),
        r@.len() == 16,
{
    let mut v: Vec<u8> = Vec::new();
    v.push(
        if active {
            0x80
        } else {
            0
        },
    );
    v.push(0xFE);
    v.push(0xFF);
    v.push(0xFF);
    v.push(kind);
    v.push(0xFE);
    v.push(0xFF);
    v.push(0xFF);
    bytes::push_le32(&mut v, start);
    bytes::push_le32(&mut v, sectors);
    v
}

fn make_stage2(
    stage2: Vec<u8>,
    loader: &[u8],
    kernel: &[u8],
    entries: &[u8],
    l: &Layout,
    config: u32,
    start: u32,
) -> (r: Vec<u8>)
    requires
        loader@.len() > SECTOR,
        stage2@ == padded(loader@.subrange(SECTOR as int, loader@.len() as int)),
        l.stage2_header_offset + 28 <= stage2@.len(),
        config == config_lba(loader@),
        start == kernel_lba(loader@, entries@),
        kernel@.len() <= u32::MAX,
        entries@.len() <= u32::MAX,
    ensures
        r@ == stage2_of(loader@, kernel@, entries@, *l),
{
    reveal(stage2_of);
    let mut v = stage2;
    let ghost n = v.len();
    let mut h: Vec<u8> = Vec::new();
    bytes::push_le32(&mut h, start);
    bytes::push_le32(&mut h, kernel.len() as u32);
    bytes::push_le32(&mut h, crc::crc32(kernel));
    bytes::push_le32(&mut h, config);
    bytes::push_le32(&mut h, entries.len() as u32);
    bytes::push_le32(&mut h, crc::crc32(entries));
    assert(h@ =~= header_fields(loader@, kernel@, entries@));
    bytes::copy_at(&mut v, l.stage2_header_offset + 4, h.as_slice());
    v
}

fn make_signature(stage2: &Vec<u8>, kernel: &[u8], entries: &[u8], record: &Option<Vec<u8>>) -> (r: Vec<u8>)
    ensures
        r@ == digest::sha256(
            signed(
                stage2@,
                kernel@,
                entries@,
                match record {
                    Some(x) => Some(x@),
                    None => None,
                },
            ),
        ).subrange(0, 4),
        r@.len() == 4,
{
    let mut h = Sha256::new();
    h.update(stage2.as_slice());
    h.update(entries);
    h.update(kernel);
    if let Some(x) = record {
        h.update(x.as_slice());
    }
    assert(h@ =~= signed(
        stage2@,
        kernel@,
        entries@,
        match record {
            Some(x) => Some(x@),
            None => None,
        },
    ));
    let d = h.finish();
    bytes::copied(d.as_slice(), 0, 4)
}

/// The sectors that the parts of a disk begin at, and the end.
struct Sectors {
    stage2: u16,
    config: u32,
    kernel: u32,
    chain: u32,
    total: u32,
}

spec fn sectors_are(s: Sectors, loader: Seq<u8>, kernel: Seq<u8>, entries: Seq<u8>, chained: bool) -> bool {
    &&& s.stage2 == sectors_for(loader.len() - SECTOR)
    &&& s.config == config_lba(loader)
    &&& s.kernel == kernel_lba(loader, entries)
    &&& s.chain == chain_lba(loader, kernel, entries)
    &&& s.total == total_sectors(loader, kernel, entries, chained)
}

fn lay_out(loader: &[u8], kernel: &[u8], entries: &[u8], chained: bool) -> (r: Sectors)
    requires
        loader@.len() > SECTOR,
        sectors_for(loader@.len() - SECTOR) <= STAGE2_MAX_SECTORS,
        kernel@.len() <= u32::MAX,
        entries@.len() <= u32::MAX,
    ensures
        sectors_are(r, loader@, kernel@, entries@, chained),
        r.total >= r.chain,
        chained ==> r.total > r.chain,
        r.total * SECTOR < 0x10_0000_0000,
{
    let stage2: usize = count_sectors(loader.len() - SECTOR);
    let config: u64 = STAGE2_LBA as u64 + stage2 as u64;
    let start: u64 = config + count_sectors(entries.len()) as u64;
    let chain: u64 = start + count_sectors(kernel.len()) as u64;
    let used: u64 = if chained {
        chain + 1
    } else {
        chain
    };
    let total: u64 = (used + CYLINDER as u64 - 1) / CYLINDER as u64 * CYLINDER as u64;
    Sectors {
        stage2: stage2 as u16,
        config: config as u32,
        kernel: start as u32,
        chain: chain as u32,
        total: total as u32,
    }
}

fn make_stage1(
    loader: &[u8],
    kernel: &[u8],
    entries: &[u8],
    stage2: &Vec<u8>,
    record: &Option<Vec<u8>>,
    l: &Layout,
    s: &Sectors,
) -> (r: Vec<u8>)
    requires
        loader@.len() > SECTOR,
        sectors_are(*s, loader@, kernel@, entries@, record is Some),
        s.total >= s.chain,
        stage2@ == stage2_of(loader@, kernel@, entries@, *l),
    ensures
        r@ == stage1_of(
            loader@,
            kernel@,
            entries@,
            match record {
                Some(x) => Some(x@),
                None => None,
            },
            *l,
        ),
        r@.len() == SECTOR,
{
    reveal(stage1_of);
    let mut mbr = bytes::copied(loader, 0, SECTOR);
    let mut table: Vec<u8> = Vec::new();
    bytes::push_le32(&mut table, STAGE2_LBA);
    bytes::push_le16(&mut table, s.stage2);
    assert(table@ =~= bytes::le32_bytes(STAGE2_LBA as int) + bytes::le16_bytes(sectors_for(loader@.len() - SECTOR)));
    bytes::copy_at(&mut mbr, STAGE1_TABLE_OFFSET + 4, table.as_slice());
    let signature = make_signature(stage2, kernel, entries, record);
    bytes::copy_at(&mut mbr, DISK_SIGNATURE_OFFSET, signature.as_slice());
    let end: u32 = if record.is_some() {
        s.chain
    } else {
        s.total
    };
    let first = make_entry(true, l.partition_type, STAGE2_LBA, end - 1);
    bytes::copy_at(&mut mbr, PARTITION_TABLE_OFFSET, first.as_slice());
    if record.is_some() {
        let second = make_entry(false, CHAIN_PARTITION_TYPE, s.chain, 1);
        bytes::copy_at(&mut mbr, PARTITION_TABLE_OFFSET + PARTITION_ENTRY_BYTES, second.as_slice());
    }
    mbr
}

fn push_padded(v: &mut Vec<u8>, b: &[u8])
    requires
        old(v)@.len() + sectors_for(b@.len() as int) * SECTOR <= usize::MAX,
    ensures
        final(v)@ == old(v)@ + padded(b@),
{
    let mut p: Vec<u8> = Vec::new();
    bytes::push_all(&mut p, b);
    assert(p@ =~= b@);
    pad_sector(&mut p);
    bytes::push_all(v, p.as_slice());
}

/// What an optional byte string holds.
pub open spec fn chain_view(chain: Option<&[u8]>) -> Option<Seq<u8>> {
    match chain {
        Some(c) => Some(c@),
        None => None,
    }
}

/// Lay out a disk: the flattened loader, the boot entries, the kernel, and optionally the
/// chainload test record as partition 2.
///
/// `loader` is the loader's flat binary: stage 1's sector followed by stage 2.
pub fn assemble(loader: &[u8], kernel: &[u8], entries: &[u8], chain: Option<&[u8]>, l: &Layout) -> (r: Result<
    Vec<u8>,
    String,
>)
    requires
        assembled(loader@, kernel@, entries@, chain_view(chain), *l) is Ok ==> total_sectors(
            loader@,
            kernel@,
            entries@,
            chain is Some,
        ) * SECTOR <= usize::MAX,
    ensures
        match r {
            Ok(v) => assembled(loader@, kernel@, entries@, chain_view(chain), *l) == Ok::<Seq<u8>, Seq<char>>(v@),
            Err(e) => assembled(loader@, kernel@, entries@, chain_view(chain), *l) == Err::<Seq<u8>, Seq<char>>(e@),
        },
{
    if let Some(e) = check_stage1(loader, l) {
        return Err(e);
    }
    let mut stage2 = bytes::copied(loader, SECTOR, loader.len());
    pad_sector(&mut stage2);
    if let Some(e) = check_rest(&stage2, loader, kernel, entries, l) {
        return Err(e);
    }
    let s = lay_out(loader, kernel, entries, chain.is_some());
    let stage2 = make_stage2(stage2, loader, kernel, entries, l, s.config, s.kernel);
    let record = match chain {
        Some(c) => match chain_record(c, s.chain) {
            Ok(v) => Some(v),
            Err(e) => {
                return Err(e);
            },
        },
        None => None,
    };
    let ghost written = written_record(loader@, kernel@, entries@, chain_view(chain));
    proof {
        sizes_add_up(loader@, kernel@, entries@, chain_view(chain), *l);
    }
    let mut image = make_stage1(loader, kernel, entries, &stage2, &record, l, &s);
    bytes::push_all(&mut image, stage2.as_slice());
    push_padded(&mut image, entries);
    push_padded(&mut image, kernel);
    if let Some(x) = &record {
        bytes::push_all(&mut image, x.as_slice());
    }
    let ghost full = image@;
    assert(full == contents(loader@, kernel@, entries@, chain_view(chain), *l));
    let size: usize = s.total as usize * SECTOR;
    assert(image@ =~= full + bytes::zeros(0));
    while image.len() < size
        invariant
            full.len() <= image@.len() <= size,
            image@ == full + bytes::zeros((image@.len() - full.len()) as nat),
        decreases size - image@.len(),
    {
        image.push(0);
        assert(image@ =~= full + bytes::zeros((image@.len() - full.len()) as nat));
    }
    Ok(image)
}

proof fn padding_fits(b: Seq<u8>)
    ensures
        padded(b).len() == sectors_for(b.len() as int) * SECTOR,
        b.len() <= padded(b).len(),
        padded(b).subrange(0, b.len() as int) == b,
{
    assert(padded(b).subrange(0, b.len() as int) =~= b);
}

proof fn sizes_add_up(loader: Seq<u8>, kernel: Seq<u8>, entries: Seq<u8>, chain: Option<Seq<u8>>, l: Layout)
    requires
        loader.len() > SECTOR,
        chain is Some ==> chain->0.len() == SECTOR,
    ensures
        stage2_of(loader, kernel, entries, l).len() == (config_lba(loader) - 1) * SECTOR,
        padded(entries).len() == (kernel_lba(loader, entries) - config_lba(loader)) * SECTOR,
        padded(kernel).len() == (chain_lba(loader, kernel, entries) - kernel_lba(loader, entries)) * SECTOR,
        contents(loader, kernel, entries, chain, l).len() == (chain_lba(loader, kernel, entries) + if chain is Some {
            1int
        } else {
            0
        }) * SECTOR,
        contents(loader, kernel, entries, chain, l).len() <= total_sectors(loader, kernel, entries, chain is Some)
            * SECTOR,
{
    let record = written_record(loader, kernel, entries, chain);
    padding_fits(loader.subrange(SECTOR as int, loader.len() as int));
    padding_fits(entries);
    padding_fits(kernel);
    assert(stage2_of(loader, kernel, entries, l).len() == (config_lba(loader) - 1) * SECTOR) by {
        reveal(stage2_of);
    }
    let one = stage1_of(loader, kernel, entries, record, l);
    assert(one.len() == SECTOR) by {
        reveal(stage1_of);
    }
    let full = contents(loader, kernel, entries, chain, l);
    let (a, b, c) = (config_lba(loader), kernel_lba(loader, entries), chain_lba(loader, kernel, entries));
    let more = if chain is Some {
        1int
    } else {
        0
    };
    if chain is Some {
        assert(record->0.len() == 512);
    }
    assert(full.len() == 512 + (a - 1) * 512 + (b - a) * 512 + (c - b) * 512 + more * 512);
    let used = c + more;
    assert(used <= (used + 1007) / 1008 * 1008);
    assert(total_sectors(loader, kernel, entries, chain is Some) == (used + 1007) / 1008 * 1008);
}

/// The layout is what the loader reads. Stage 1's table leads to stage 2; stage 2's header says
/// where the kernel and the boot entries begin, how long they are and what their CRCs are, and there
/// they stand; the first partition is active and begins at stage 2; and the disk is a whole number
/// of cylinders.
pub proof fn disks_hold_what_their_headers_say(
    loader: Seq<u8>,
    kernel: Seq<u8>,
    entries: Seq<u8>,
    chain: Option<Seq<u8>>,
    l: Layout,
)
    requires
        assembled(loader, kernel, entries, chain, l) is Ok,
    ensures
        ({
            let disk = assembled(loader, kernel, entries, chain, l)->Ok_0;
            let h = SECTOR + l.stage2_header_offset;
            let (config, start) = (bytes::le32(disk, h + 16), bytes::le32(disk, h + 4));
            &&& bytes::le32(disk, STAGE1_TABLE_OFFSET + 4) == STAGE2_LBA
            &&& bytes::le16(disk, STAGE1_TABLE_OFFSET + 8) == sectors_for(loader.len() - SECTOR)
            &&& bytes::le32(disk, h + 8) == kernel.len()
            &&& bytes::le32(disk, h + 12) == crc::crc_of(kernel)
            &&& bytes::le32(disk, h + 20) == entries.len()
            &&& bytes::le32(disk, h + 24) == crc::crc_of(entries)
            &&& disk.subrange(start * SECTOR, start * SECTOR + kernel.len()) == kernel
            &&& disk.subrange(config * SECTOR, config * SECTOR + entries.len()) == entries
            &&& disk[PARTITION_TABLE_OFFSET as int] == 0x80
            &&& disk[PARTITION_TABLE_OFFSET + 4] == l.partition_type
            &&& bytes::le32(disk, PARTITION_TABLE_OFFSET + 8) == STAGE2_LBA
            &&& disk[510] == 0x55 && disk[511] == 0xAA
            &&& disk.len() % (CYLINDER * SECTOR) as nat == 0
            &&& chain is Some ==> {
                let lba = bytes::le32(disk, PARTITION_TABLE_OFFSET + PARTITION_ENTRY_BYTES + 8);
                disk.subrange(lba * SECTOR, lba * SECTOR + SECTOR) == record_of(chain->0, lba)
            }
        }),
{
    let disk = disk_of(loader, kernel, entries, chain, l);
    let record = written_record(loader, kernel, entries, chain);
    let (one, two) = (stage1_of(loader, kernel, entries, record, l), stage2_of(loader, kernel, entries, l));
    let (a, b, c) = (config_lba(loader), kernel_lba(loader, entries), chain_lba(loader, kernel, entries));
    sizes_add_up(loader, kernel, entries, chain, l);
    stage1_reads(loader, kernel, entries, record, l);
    header_reads(loader, kernel, entries, l);
    parts_stand(loader, kernel, entries, chain, l);
    let h = SECTOR + l.stage2_header_offset;
    let at = l.stage2_header_offset + 4;
    let (got, want) = (disk.subrange(h + 4, h + 28), two.subrange(at, at + 24));
    let second = disk.subrange(SECTOR as int, SECTOR + two.len());
    assert forall|k: int| 0 <= k < 24 implies #[trigger] got[k] == want[k] by {
        assert(second[at + k] == two[at + k]);
    }
    assert(got =~= want);
    same_words(disk, h + 4, two, at);
    let first = disk.subrange(0, SECTOR as int);
    assert forall|k: int| 0 <= k < one.len() implies #[trigger] disk[k] == one[k] by {
        assert(first[k] == one[k]);
    }
    same_word(disk, one, STAGE1_TABLE_OFFSET + 4);
    same_word(disk, one, STAGE1_TABLE_OFFSET + 8);
    same_word(disk, one, PARTITION_TABLE_OFFSET + 8);
    same_word(disk, one, PARTITION_TABLE_OFFSET + 24);
    whole_cylinders(loader, kernel, entries, chain is Some);
}

proof fn whole_cylinders(loader: Seq<u8>, kernel: Seq<u8>, entries: Seq<u8>, chained: bool)
    ensures
        (total_sectors(loader, kernel, entries, chained) * SECTOR) % (CYLINDER * SECTOR) as int == 0,
{
    let used = chain_lba(loader, kernel, entries) + if chained {
        1int
    } else {
        0
    };
    let n = (used + CYLINDER - 1) / CYLINDER as int;
    assert(total_sectors(loader, kernel, entries, chained) * SECTOR == n * 516096);
    assert((n * 516096) % 516096 == 0);
}

/// Each part of a disk stands in its place.
proof fn parts_stand(loader: Seq<u8>, kernel: Seq<u8>, entries: Seq<u8>, chain: Option<Seq<u8>>, l: Layout)
    requires
        loader.len() > SECTOR,
        chain is Some ==> chain->0.len() == SECTOR,
    ensures
        ({
            let disk = disk_of(loader, kernel, entries, chain, l);
            let record = written_record(loader, kernel, entries, chain);
            let two = stage2_of(loader, kernel, entries, l);
            let (a, b, c) = (config_lba(loader), kernel_lba(loader, entries), chain_lba(loader, kernel, entries));
            &&& disk.len() == total_sectors(loader, kernel, entries, chain is Some) * SECTOR
            &&& two.len() == (a - 1) * SECTOR
            &&& a * SECTOR <= disk.len()
            &&& disk.subrange(0, SECTOR as int) == stage1_of(loader, kernel, entries, record, l)
            &&& disk.subrange(SECTOR as int, SECTOR + two.len()) == two
            &&& disk.subrange(a * SECTOR, a * SECTOR + entries.len()) == entries
            &&& disk.subrange(b * SECTOR, b * SECTOR + kernel.len()) == kernel
            &&& chain is Some ==> disk.subrange(c * SECTOR, c * SECTOR + SECTOR) == record->0
        }),
{
    let disk = disk_of(loader, kernel, entries, chain, l);
    let record = written_record(loader, kernel, entries, chain);
    let (one, two) = (stage1_of(loader, kernel, entries, record, l), stage2_of(loader, kernel, entries, l));
    let (a, b, c) = (config_lba(loader), kernel_lba(loader, entries), chain_lba(loader, kernel, entries));
    let (mine, body) = (padded(entries), padded(kernel));
    sizes_add_up(loader, kernel, entries, chain, l);
    padding_fits(entries);
    padding_fits(kernel);
    assert(one.len() == SECTOR) by {
        reveal(stage1_of);
    }
    let tail = match record {
        Some(r) => r,
        None => seq![],
    };
    let full = contents(loader, kernel, entries, chain, l);
    assert(full =~= one + two + mine + body + tail);
    parts_of_five(one, two, mine, body, tail, bytes::zeros((disk.len() - full.len()) as nat));
    assert(disk =~= one + two + mine + body + tail + bytes::zeros((disk.len() - full.len()) as nat));
    assert(disk.subrange(a * SECTOR, a * SECTOR + entries.len()) =~= disk.subrange(
        a * SECTOR,
        a * SECTOR + mine.len(),
    ).subrange(0, entries.len() as int));
    assert(disk.subrange(b * SECTOR, b * SECTOR + kernel.len()) =~= disk.subrange(
        b * SECTOR,
        b * SECTOR + body.len(),
    ).subrange(0, kernel.len() as int));
}

proof fn parts_of_five(a: Seq<u8>, b: Seq<u8>, c: Seq<u8>, d: Seq<u8>, e: Seq<u8>, f: Seq<u8>)
    ensures
        ({
            let all = a + b + c + d + e + f;
            let (x, y, z) = (a.len() as int, (a.len() + b.len()) as int, (a.len() + b.len() + c.len()) as int);
            &&& all.subrange(0, x) == a
            &&& all.subrange(x, y) == b
            &&& all.subrange(y, z) == c
            &&& all.subrange(z, z + d.len()) == d
            &&& all.subrange(z + d.len(), z + d.len() + e.len()) == e
        }),
{
    let all = a + b + c + d + e + f;
    let (x, y, z) = (a.len() as int, (a.len() + b.len()) as int, (a.len() + b.len() + c.len()) as int);
    assert(all.subrange(0, x) =~= a);
    assert(all.subrange(x, y) =~= b);
    assert(all.subrange(y, z) =~= c);
    assert(all.subrange(z, z + d.len()) =~= d);
    assert(all.subrange(z + d.len(), z + d.len() + e.len()) =~= e);
}

proof fn same_word(x: Seq<u8>, y: Seq<u8>, i: int)
    requires
        0 <= i,
        i + 4 <= y.len(),
        forall|k: int| 0 <= k < y.len() ==> #[trigger] x[k] == y[k],
    ensures
        bytes::le32(x, i) == bytes::le32(y, i),
        bytes::le16(x, i) == bytes::le16(y, i),
{
}

proof fn same_words(x: Seq<u8>, i: int, y: Seq<u8>, j: int)
    requires
        0 <= i,
        i + 24 <= x.len(),
        0 <= j,
        j + 24 <= y.len(),
        x.subrange(i, i + 24) == y.subrange(j, j + 24),
    ensures
        bytes::le32(x, i) == bytes::le32(y, j),
        bytes::le32(x, i + 4) == bytes::le32(y, j + 4),
        bytes::le32(x, i + 8) == bytes::le32(y, j + 8),
        bytes::le32(x, i + 12) == bytes::le32(y, j + 12),
        bytes::le32(x, i + 16) == bytes::le32(y, j + 16),
        bytes::le32(x, i + 20) == bytes::le32(y, j + 20),
{
    words_of_part(x, i);
    words_of_part(y, j);
}

proof fn words_of_part(x: Seq<u8>, i: int)
    requires
        0 <= i,
        i + 24 <= x.len(),
    ensures
        bytes::le32(x, i) == bytes::le32(x.subrange(i, i + 24), 0),
        bytes::le32(x, i + 4) == bytes::le32(x.subrange(i, i + 24), 4),
        bytes::le32(x, i + 8) == bytes::le32(x.subrange(i, i + 24), 8),
        bytes::le32(x, i + 12) == bytes::le32(x.subrange(i, i + 24), 12),
        bytes::le32(x, i + 16) == bytes::le32(x.subrange(i, i + 24), 16),
        bytes::le32(x, i + 20) == bytes::le32(x.subrange(i, i + 24), 20),
{
}

proof fn header_reads(loader: Seq<u8>, kernel: Seq<u8>, entries: Seq<u8>, l: Layout)
    requires
        loader.len() > SECTOR,
        sectors_for(loader.len() - SECTOR) <= STAGE2_MAX_SECTORS,
        kernel.len() <= u32::MAX,
        entries.len() <= u32::MAX,
        l.stage2_header_offset + 28 <= sectors_for(loader.len() - SECTOR) * SECTOR,
    ensures
        ({
            let two = stage2_of(loader, kernel, entries, l);
            let h = l.stage2_header_offset;
            &&& bytes::le32(two, h + 4) == kernel_lba(loader, entries)
            &&& bytes::le32(two, h + 8) == kernel.len()
            &&& bytes::le32(two, h + 12) == crc::crc_of(kernel)
            &&& bytes::le32(two, h + 16) == config_lba(loader)
            &&& bytes::le32(two, h + 20) == entries.len()
            &&& bytes::le32(two, h + 24) == crc::crc_of(entries)
        }),
{
    let two = stage2_of(loader, kernel, entries, l);
    let h = l.stage2_header_offset as int;
    let f = header_fields(loader, kernel, entries);
    reveal(stage2_of);
    padding_fits(loader.subrange(SECTOR as int, loader.len() as int));
    assert(f.len() == 24);
    assert(two.subrange(h + 4, h + 28) =~= f.subrange(0, 24));
    same_words(two, h + 4, f, 0);
    fields_read(
        kernel_lba(loader, entries),
        kernel.len() as int,
        crc::crc_of(kernel) as int,
        config_lba(loader),
        entries.len() as int,
        crc::crc_of(entries) as int,
    );
}

proof fn fields_read(a: int, b: int, c: int, d: int, e: int, f: int)
    requires
        0 <= a <= u32::MAX,
        0 <= b <= u32::MAX,
        0 <= c <= u32::MAX,
        0 <= d <= u32::MAX,
        0 <= e <= u32::MAX,
        0 <= f <= u32::MAX,
    ensures
        ({
            let s = bytes::le32_bytes(a) + bytes::le32_bytes(b) + bytes::le32_bytes(c) + bytes::le32_bytes(d)
                + bytes::le32_bytes(e) + bytes::le32_bytes(f);
            &&& bytes::le32(s, 0) == a
            &&& bytes::le32(s, 4) == b
            &&& bytes::le32(s, 8) == c
            &&& bytes::le32(s, 12) == d
            &&& bytes::le32(s, 16) == e
            &&& bytes::le32(s, 20) == f
        }),
{
    bytes::le32_of_bytes(a);
    bytes::le32_of_bytes(b);
    bytes::le32_of_bytes(c);
    bytes::le32_of_bytes(d);
    bytes::le32_of_bytes(e);
    bytes::le32_of_bytes(f);
}

proof fn stage1_reads(loader: Seq<u8>, kernel: Seq<u8>, entries: Seq<u8>, record: Option<Seq<u8>>, l: Layout)
    requires
        loader.len() > SECTOR,
        loader[510] == 0x55 && loader[511] == 0xAA,
        sectors_for(loader.len() - SECTOR) <= STAGE2_MAX_SECTORS,
        kernel.len() <= u32::MAX,
        entries.len() <= u32::MAX,
    ensures
        ({
            let one = stage1_of(loader, kernel, entries, record, l);
            &&& one.len() == SECTOR
            &&& bytes::le32(one, STAGE1_TABLE_OFFSET + 4) == STAGE2_LBA
            &&& bytes::le16(one, STAGE1_TABLE_OFFSET + 8) == sectors_for(loader.len() - SECTOR)
            &&& one[PARTITION_TABLE_OFFSET as int] == 0x80
            &&& one[PARTITION_TABLE_OFFSET + 4] == l.partition_type
            &&& bytes::le32(one, PARTITION_TABLE_OFFSET + 8) == STAGE2_LBA
            &&& one[510] == 0x55 && one[511] == 0xAA
            &&& record is Some ==> bytes::le32(one, PARTITION_TABLE_OFFSET + 24) == chain_lba(loader, kernel, entries)
        }),
{
    let one = stage1_of(loader, kernel, entries, record, l);
    let n = sectors_for(loader.len() - SECTOR);
    reveal(stage1_of);
    let table = bytes::le32_bytes(STAGE2_LBA as int) + bytes::le16_bytes(n);
    bytes::le32_of_bytes(STAGE2_LBA as int);
    bytes::le16_of_bytes(n);
    bytes::le32_of_bytes(chain_lba(loader, kernel, entries));
    let with_table = bytes::splice(loader.subrange(0, SECTOR as int), STAGE1_TABLE_OFFSET + 4, table);
    let signature = digest::sha256(signed(stage2_of(loader, kernel, entries, l), kernel, entries, record)).subrange(0, 4);
    assert(signature.len() == 4);
    assert(table.len() == 6);
    assert forall|i: int| 428 <= i < 434 implies #[trigger] one[i] == table[i - 428] by {
        assert(with_table[i] == table[i - 428]);
    }
    assert(one[428] == table[0] && one[429] == table[1] && one[430] == table[2] && one[431] == table[3] && one[432]
        == table[4] && one[433] == table[5]);
}

} // verus!
