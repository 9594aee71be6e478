//! Loadable modules, and the bundle that carries them to the kernel.
//!
//! A unit of kind `module` enabled by a tristate at `m` becomes one relocatable object, valid for
//! exactly one kernel build: its `.kintane.identity` section holds the build identity of the
//! configuration it was built against. The kernel is not given a filesystem to find modules on, so
//! every module that was built is packed into one bundle beside the image, and the boot path hands
//! the kernel the bundle.

use vstd::prelude::*;
use vstd::string::*;

use crate::bytes;
use crate::digest;
use crate::digest::Sha256;
use crate::kcfg;
use crate::kcfg::expr;
use crate::kcfg::resolve;
use crate::kcfg::resolve::Resolution;
use crate::kcfg::SymbolTable;
use crate::text;

verus! {

/// The bundle's file name, beside the kernel image.
pub const BUNDLE: &'static str = "modules.kmb";

/// The longest module name that a bundle entry holds.
pub const NAME_LEN: usize = 40;

/// Bytes in a bundle entry.
pub const ENTRY_LEN: usize = 48;

/// What an identity section begins with: `KTIDENT1`.
pub const IDENTITY_MAGIC: [u8; 8] = [75u8, 84, 73, 68, 69, 78, 84, 49];

/// What a bundle begins with: `KTBUNDL1`.
pub const BUNDLE_MAGIC: [u8; 8] = [75u8, 84, 66, 85, 78, 68, 76, 49];

/// A length in the 32 bits there are for it.
pub open spec fn short(n: int) -> int {
    n % 0x1_0000_0000
}

fn cut(n: usize) -> (r: u32)
    ensures
        r == short(n as int),
{
    (n as u64 % 0x1_0000_0000) as u32
}

/// The identity section's contents for a text: a magic, the text's hash, its length, and it.
pub open spec fn identity_of(t: Seq<char>) -> Seq<u8> {
    let b = vstd::utf8::encode_utf8(t);
    IDENTITY_MAGIC@ + digest::sha256(b) + bytes::le32_bytes(short(b.len() as int)) + b
}

/// The `.kintane.identity` section's contents for `text`.
pub fn identity_section(t: &str) -> (r: Vec<u8>)
    ensures
        r@ == identity_of(t@),
{
    let b = t.as_bytes();
    let mut h = Sha256::new();
    h.update(b);
    assert(h@ =~= b@);
    let mut v: Vec<u8> = Vec::new();
    bytes::push_all(&mut v, IDENTITY_MAGIC.as_slice());
    assert(v@ =~= IDENTITY_MAGIC@);
    bytes::push_all(&mut v, h.finish().as_slice());
    bytes::push_le32(&mut v, cut(b.len()));
    bytes::push_all(&mut v, b);
    v
}

// ---- the bundle ----

/// A module: its name and its bytes.
pub ghost struct Module {
    pub name: Seq<char>,
    pub data: Seq<u8>,
}

/// What a list of modules holds.
pub open spec fn modules_of(v: Seq<(String, Vec<u8>)>) -> Seq<Module> {
    v.map_values(|m: (String, Vec<u8>)| Module { name: m.0@, data: m.1@ })
}

/// Bytes before the first module.
pub open spec fn header_len(mods: Seq<Module>) -> int {
    16 + mods.len() * ENTRY_LEN
}

/// How many bytes there are up to the next 8-byte boundary.
pub open spec fn gap(n: int) -> int {
    (8 - n % 8) % 8
}

/// The first `n` modules, each at an 8-byte boundary of the bundle.
pub open spec fn packed(mods: Seq<Module>, n: nat) -> Seq<u8>
    decreases n,
{
    if n == 0 {
        seq![]
    } else {
        let before = packed(mods, (n - 1) as nat);
        before + bytes::zeros(gap(header_len(mods) + before.len()) as nat) + mods[n - 1].data
    }
}

/// Where module `i` begins.
pub open spec fn offset(mods: Seq<Module>, i: nat) -> int {
    let at = header_len(mods) + packed(mods, i).len();
    at + gap(at)
}

/// A name, filled up with zeros.
pub open spec fn name_field(name: Seq<char>) -> Seq<u8> {
    let b = vstd::utf8::encode_utf8(name);
    b + bytes::zeros((NAME_LEN - b.len()) as nat)
}

/// The entries of the first `n` modules: name, offset and length.
pub open spec fn table(mods: Seq<Module>, n: nat) -> Seq<u8>
    decreases n,
{
    if n == 0 {
        seq![]
    } else {
        let m = mods[n - 1];
        table(mods, (n - 1) as nat) + name_field(m.name) + bytes::le32_bytes(short(offset(mods, (n - 1) as nat)))
            + bytes::le32_bytes(short(m.data.len() as int))
    }
}

/// Which of the first `n` modules has a name that is too long: the first that has.
pub open spec fn too_long(mods: Seq<Module>, n: nat) -> Option<Seq<char>>
    decreases n,
{
    if n == 0 {
        None
    } else if too_long(mods, (n - 1) as nat) is Some {
        too_long(mods, (n - 1) as nat)
    } else if vstd::utf8::encode_utf8(mods[n - 1].name).len() > NAME_LEN {
        Some(mods[n - 1].name)
    } else {
        None
    }
}

/// How long a bundle is.
pub open spec fn bundle_len(mods: Seq<Module>) -> int {
    header_len(mods) + packed(mods, mods.len()).len()
}

/// A bundle of `n` entries: a magic, the entry count and the total length, the entries, then the
/// modules.
#[verifier::opaque]
pub open spec fn framed(n: int, entries: Seq<u8>, data: Seq<u8>) -> Seq<u8> {
    BUNDLE_MAGIC@ + bytes::le32_bytes(short(n)) + bytes::le32_bytes(short(16 + n * ENTRY_LEN + data.len())) + entries
        + data
}

/// A bundle of modules.
pub open spec fn bundle(mods: Seq<Module>) -> Seq<u8> {
    framed(mods.len() as int, table(mods, mods.len()), packed(mods, mods.len()))
}

proof fn packing_grows(mods: Seq<Module>, n: nat, m: nat)
    requires
        n <= m <= mods.len(),
    ensures
        packed(mods, n).len() <= packed(mods, m).len(),
        n < m ==> offset(mods, n) + mods[n as int].data.len() <= header_len(mods) + packed(mods, m).len(),
    decreases m,
{
    if n < m {
        packing_grows(mods, n, (m - 1) as nat);
    }
}

proof fn long_names_stay(mods: Seq<Module>, n: nat, m: nat)
    requires
        too_long(mods, n) is Some,
        n <= m,
    ensures
        too_long(mods, m) == too_long(mods, n),
    decreases m,
{
    if n < m {
        long_names_stay(mods, n, (m - 1) as nat);
    }
}

/// Pack modules into a bundle.
pub fn bundle_bytes(modules: &[(String, Vec<u8>)]) -> (r: Result<Vec<u8>, String>)
    requires
        bundle_len(modules_of(modules@)) <= usize::MAX,
    ensures
        match too_long(modules_of(modules@), modules@.len()) {
            None => r is Ok && r->Ok_0@ == bundle(modules_of(modules@)),
            Some(name) => r is Err && r->Err_0@ == "module name `"@ + name + "` is longer than 40 bytes"@,
        },
{
    let ghost mods = modules_of(modules@);
    proof {
        packing_grows(mods, 0, mods.len());
    }
    let header: usize = 16 + modules.len() * ENTRY_LEN;
    let mut data: Vec<u8> = Vec::new();
    let mut entries: Vec<u8> = Vec::new();
    let mut i: usize = 0;
    assert(data@ =~= packed(mods, 0));
    assert(entries@ =~= table(mods, 0));
    while i < modules.len()
        invariant
            i <= modules@.len(),
            mods == modules_of(modules@),
            header == header_len(mods),
            bundle_len(mods) <= usize::MAX,
            too_long(mods, i as nat) is None,
            data@ == packed(mods, i as nat),
            entries@ == table(mods, i as nat),
        decreases modules@.len() - i,
    {
        let m = &modules[i];
        assert(mods[i as int].name == m.0@ && mods[i as int].data == m.1@);
        let name = m.0.as_str().as_bytes();
        if name.len() > NAME_LEN {
            let mut e = "module name `".to_owned();
            e.append(m.0.as_str());
            e.append("` is longer than 40 bytes");
            proof {
                long_names_stay(mods, (i + 1) as nat, mods.len());
            }
            return Err(e);
        }
        proof {
            packing_grows(mods, i as nat, mods.len());
        }
        let ghost before = data@;
        let ghost goal = offset(mods, i as nat);
        assert(data@ =~= before + bytes::zeros(0));
        let at: usize = header + data.len();
        let fill: usize = (8 - at % 8) % 8;
        let mut k: usize = 0;
        while k < fill
            invariant
                k <= fill,
                data@ == before + bytes::zeros(k as nat),
            decreases fill - k,
        {
            data.push(0);
            assert(data@ =~= before + bytes::zeros((k + 1) as nat));
            k += 1;
        }
        let ghost filled = data@;
        let ghost listed = entries@;
        bytes::push_all(&mut entries, name);
        let mut k: usize = name.len();
        assert(entries@ =~= listed + (name@ + bytes::zeros(0)));
        while k < NAME_LEN
            invariant
                name@.len() <= k <= NAME_LEN,
                entries@ == listed + (name@ + bytes::zeros((k - name@.len()) as nat)),
            decreases NAME_LEN - k,
        {
            entries.push(0);
            assert(entries@ =~= listed + (name@ + bytes::zeros((k + 1 - name@.len()) as nat)));
            k += 1;
        }
        assert(entries@ == listed + name_field(m.0@));
        bytes::push_le32(&mut entries, cut(header + data.len()));
        bytes::push_le32(&mut entries, cut(m.1.len()));
        bytes::push_all(&mut data, m.1.as_slice());
        i += 1;
    }
    reveal(framed);
    let mut out: Vec<u8> = Vec::new();
    bytes::push_all(&mut out, BUNDLE_MAGIC.as_slice());
    assert(out@ =~= BUNDLE_MAGIC@);
    bytes::push_le32(&mut out, cut(modules.len()));
    bytes::push_le32(&mut out, cut(header + data.len()));
    bytes::push_all(&mut out, entries.as_slice());
    bytes::push_all(&mut out, data.as_slice());
    Ok(out)
}

/// A bundle holds each module where its entry says: at an 8-byte boundary, under its name, with its
/// length; and it holds its own length.
pub proof fn bundles_hold_their_modules(mods: Seq<Module>, i: int)
    requires
        too_long(mods, mods.len()) is None,
        bundle_len(mods) < 0x1_0000_0000,
        0 <= i < mods.len(),
    ensures
        ({
            let b = bundle(mods);
            let e = 16 + i * ENTRY_LEN;
            let (at, size) = (bytes::le32(b, e + 40), bytes::le32(b, e + 44));
            &&& bytes::le32(b, 8) == mods.len()
            &&& bytes::le32(b, 12) == b.len()
            &&& b.subrange(e, e + 40) == name_field(mods[i].name)
            &&& at % 8 == 0
            &&& size == mods[i].data.len()
            &&& b.subrange(at, at + size) == mods[i].data
        }),
{
    table_len(mods, mods.len());
    frame_says(mods.len() as int, table(mods, mods.len()), packed(mods, mods.len()));
    entry_says(mods, i);
    data_stands(mods, i);
}

/// What entry `i` of a bundle holds.
proof fn entry_says(mods: Seq<Module>, i: int)
    requires
        too_long(mods, mods.len()) is None,
        bundle_len(mods) < 0x1_0000_0000,
        0 <= i < mods.len(),
    ensures
        ({
            let b = bundle(mods);
            let e = 16 + i * ENTRY_LEN;
            &&& bytes::le32(b, e + 40) == offset(mods, i as nat)
            &&& bytes::le32(b, e + 44) == mods[i].data.len()
            &&& b.subrange(e, e + 40) == name_field(mods[i].name)
        }),
{
    let n = mods.len();
    let (t, p) = (table(mods, n), packed(mods, n));
    let (off, size) = (offset(mods, i as nat), mods[i].data.len() as int);
    let name = name_field(mods[i].name);
    names_are_short(mods, n, i);
    assert(name.len() == 40);
    entries_stand(mods, n, i);
    offsets_are_short(mods, i);
    let front = frame_front(n as int, (16 + 48 * n + p.len()) as int);
    let b = front + (t + p);
    assert(bundle(mods) == b && front.len() == 16) by {
        frame_is(n as int, t, p);
    }
    part_behind(front, t, p, 48 * i, 48);
    assert(b.subrange(16 + 48 * i, 16 + 48 * i + 48) == name + bytes::le32_bytes(off) + bytes::le32_bytes(size));
    assert(b.len() == 16 + t.len() + p.len());
    entry_in(b, 16 + 48 * i, name, off, size);
}

proof fn offsets_are_short(mods: Seq<Module>, i: int)
    requires
        bundle_len(mods) < 0x1_0000_0000,
        0 <= i < mods.len(),
    ensures
        0 <= offset(mods, i as nat) < 0x1_0000_0000,
        mods[i].data.len() < 0x1_0000_0000,
        short(offset(mods, i as nat)) == offset(mods, i as nat),
        short(mods[i].data.len() as int) == mods[i].data.len(),
{
    packing_grows(mods, i as nat, mods.len());
}

proof fn entry_in(b: Seq<u8>, e: int, name: Seq<u8>, off: int, size: int)
    requires
        0 <= e,
        e + 48 <= b.len(),
        name.len() == 40,
        0 <= off < 0x1_0000_0000,
        0 <= size < 0x1_0000_0000,
        b.subrange(e, e + 48) == name + bytes::le32_bytes(off) + bytes::le32_bytes(size),
    ensures
        bytes::le32(b, e + 40) == off,
        bytes::le32(b, e + 44) == size,
        b.subrange(e, e + 40) == name,
{
    entry_reads(name, off, size);
    words_of_entry(b, e);
    assert(b.subrange(e, e + 40) =~= b.subrange(e, e + 48).subrange(0, 40));
}

/// Where module `i` of a bundle stands.
proof fn data_stands(mods: Seq<Module>, i: int)
    requires
        too_long(mods, mods.len()) is None,
        bundle_len(mods) < 0x1_0000_0000,
        0 <= i < mods.len(),
    ensures
        ({
            let (off, size) = (offset(mods, i as nat), mods[i].data.len());
            off % 8 == 0 && bundle(mods).subrange(off, off + size) == mods[i].data
        }),
{
    let (off, size) = (offset(mods, i as nat), mods[i].data.len() as int);
    modules_stand(mods, mods.len(), i);
    entries_stand(mods, mods.len(), i);
    let n = mods.len();
    let (t, p) = (table(mods, n), packed(mods, n));
    frame_is(n as int, t, p);
    part_at_end(frame_front(n as int, (16 + 48 * n + p.len()) as int), t, p, off - header_len(mods), size);
    gaps_align(header_len(mods) + packed(mods, i as nat).len());
}

proof fn gaps_align(n: int)
    requires
        n >= 0,
    ensures
        (n + gap(n)) % 8 == 0,
{
}

spec fn frame_front(n: int, size: int) -> Seq<u8> {
    BUNDLE_MAGIC@ + bytes::le32_bytes(n) + bytes::le32_bytes(size)
}

proof fn frame_is(n: int, t: Seq<u8>, p: Seq<u8>)
    requires
        0 <= n,
        t.len() == 48 * n,
        16 + 48 * n + p.len() < 0x1_0000_0000,
    ensures
        framed(n, t, p) == frame_front(n, 16 + 48 * n + p.len()) + (t + p),
        frame_front(n, 16 + 48 * n + p.len()).len() == 16,
{
    reveal(framed);
    let size = 16 + 48 * n + p.len();
    assert(short(n) == n);
    assert(short(size) == size);
    regroup(frame_front(n, size), t, p);
}

proof fn frame_says(n: int, t: Seq<u8>, p: Seq<u8>)
    requires
        0 <= n,
        t.len() == 48 * n,
        16 + 48 * n + p.len() < 0x1_0000_0000,
    ensures
        bytes::le32(framed(n, t, p), 8) == n,
        bytes::le32(framed(n, t, p), 12) == 16 + 48 * n + p.len(),
        framed(n, t, p).len() == 16 + 48 * n + p.len(),
{
    frame_is(n, t, p);
    front_reads(n, 16 + 48 * n + p.len(), t + p);
}

proof fn part_behind(front: Seq<u8>, t: Seq<u8>, p: Seq<u8>, i: int, size: int)
    requires
        0 <= i <= i + size <= t.len(),
    ensures
        (front + (t + p)).subrange(front.len() + i, front.len() + i + size) == t.subrange(i, i + size),
{
    assert((front + (t + p)).subrange(front.len() + i, front.len() + i + size) =~= t.subrange(i, i + size));
}

proof fn part_at_end(front: Seq<u8>, t: Seq<u8>, p: Seq<u8>, i: int, size: int)
    requires
        0 <= i <= i + size <= p.len(),
    ensures
        (front + (t + p)).subrange(front.len() + t.len() + i, front.len() + t.len() + i + size) == p.subrange(
            i,
            i + size,
        ),
{
    assert((front + (t + p)).subrange(front.len() + t.len() + i, front.len() + t.len() + i + size) =~= p.subrange(
        i,
        i + size,
    ));
}

proof fn regroup(a: Seq<u8>, b: Seq<u8>, c: Seq<u8>)
    ensures
        a + b + c == a + (b + c),
{
    assert(a + b + c =~= a + (b + c));
}

proof fn words_of_entry(b: Seq<u8>, e: int)
    requires
        0 <= e,
        e + 48 <= b.len(),
    ensures
        bytes::le32(b, e + 40) == bytes::le32(b.subrange(e, e + 48), 40),
        bytes::le32(b, e + 44) == bytes::le32(b.subrange(e, e + 48), 44),
{
}

proof fn front_reads(n: int, size: int, rest: Seq<u8>)
    requires
        0 <= n < 0x1_0000_0000,
        0 <= size < 0x1_0000_0000,
    ensures
        ({
            let front = BUNDLE_MAGIC@ + bytes::le32_bytes(n) + bytes::le32_bytes(size);
            &&& front.len() == 16
            &&& bytes::le32(front + rest, 8) == n
            &&& bytes::le32(front + rest, 12) == size
        }),
{
    bytes::le32_of_bytes(n);
    bytes::le32_of_bytes(size);
}

proof fn entry_reads(name: Seq<u8>, at: int, size: int)
    requires
        name.len() == 40,
        0 <= at < 0x1_0000_0000,
        0 <= size < 0x1_0000_0000,
    ensures
        ({
            let e = name + bytes::le32_bytes(at) + bytes::le32_bytes(size);
            &&& e.subrange(0, 40) == name
            &&& bytes::le32(e, 40) == at
            &&& bytes::le32(e, 44) == size
        }),
{
    bytes::le32_of_bytes(at);
    bytes::le32_of_bytes(size);
    let e = name + bytes::le32_bytes(at) + bytes::le32_bytes(size);
    assert(e.subrange(0, 40) =~= name);
}

proof fn names_are_short(mods: Seq<Module>, n: nat, i: int)
    requires
        too_long(mods, n) is None,
        0 <= i < n <= mods.len(),
    ensures
        vstd::utf8::encode_utf8(mods[i].name).len() <= NAME_LEN,
    decreases n,
{
    if i < n - 1 {
        names_are_short(mods, (n - 1) as nat, i);
    }
}

proof fn table_len(mods: Seq<Module>, n: nat)
    requires
        too_long(mods, n) is None,
        n <= mods.len(),
    ensures
        table(mods, n).len() == 48 * n,
    decreases n,
{
    if n > 0 {
        table_len(mods, (n - 1) as nat);
    }
}

proof fn entries_stand(mods: Seq<Module>, n: nat, i: int)
    requires
        too_long(mods, n) is None,
        0 <= i < n <= mods.len(),
    ensures
        table(mods, n).len() == 48 * n,
        table(mods, n).subrange(48 * i, 48 * i + 48) == name_field(mods[i].name) + bytes::le32_bytes(
            short(offset(mods, i as nat)),
        ) + bytes::le32_bytes(short(mods[i].data.len() as int)),
    decreases n,
{
    let before = table(mods, (n - 1) as nat);
    let m = mods[n - 1];
    let last = name_field(m.name) + bytes::le32_bytes(short(offset(mods, (n - 1) as nat))) + bytes::le32_bytes(
        short(m.data.len() as int),
    );
    table_len(mods, n);
    table_len(mods, (n - 1) as nat);
    assert(table(mods, n) =~= before + last);
    if i < n - 1 {
        entries_stand(mods, (n - 1) as nat, i);
        assert((before + last).subrange(48 * i, 48 * i + 48) =~= before.subrange(48 * i, 48 * i + 48));
    } else {
        assert((before + last).subrange(48 * i, 48 * i + 48) =~= last);
    }
}

proof fn modules_stand(mods: Seq<Module>, n: nat, i: int)
    requires
        0 <= i < n <= mods.len(),
    ensures
        ({
            let at = offset(mods, i as nat) - header_len(mods);
            0 <= at && at + mods[i].data.len() <= packed(mods, n).len() && packed(mods, n).subrange(
                at,
                at + mods[i].data.len(),
            ) == mods[i].data
        }),
    decreases n,
{
    let at = offset(mods, i as nat) - header_len(mods);
    let size = mods[i].data.len();
    let before = packed(mods, (n - 1) as nat);
    if i < n - 1 {
        modules_stand(mods, (n - 1) as nat, i);
        assert(packed(mods, n).subrange(at, at + size) =~= before.subrange(at, at + size));
    } else {
        assert(packed(mods, n).subrange(at, at + size) =~= mods[i].data);
    }
}

// ---- configuration overrides ----

/// What a list of settings holds.
pub open spec fn settings_of(v: Seq<(String, String)>) -> Seq<(Seq<char>, Seq<char>)> {
    v.map_values(|s: (String, String)| (s.0@, s.1@))
}

/// The settings that the first `n` of a manifest's lines ask for.
pub open spec fn overrides_in(lines: Seq<Seq<char>>, manifest: Seq<char>, n: nat) -> Result<
    Seq<(Seq<char>, Seq<char>)>,
    Seq<char>,
>
    decreases n,
{
    if n == 0 {
        Ok(seq![])
    } else {
        match overrides_in(lines, manifest, (n - 1) as nat) {
            Err(e) => Err(e),
            Ok(before) => {
                let l = lines[n - 1];
                let at = text::next_of(l, '=', 0);
                if at >= l.len() {
                    Err(manifest + ": config-overrides expects SYM=VALUE, got `"@ + l + "`"@)
                } else {
                    Ok(before.push((l.subrange(0, at), l.subrange(at + 1, l.len() as int))))
                }
            },
        }
    }
}

proof fn override_errors_stay(lines: Seq<Seq<char>>, manifest: Seq<char>, n: nat, m: nat)
    requires
        overrides_in(lines, manifest, n) is Err,
        n <= m,
    ensures
        overrides_in(lines, manifest, m) == overrides_in(lines, manifest, n),
    decreases m,
{
    if n < m {
        override_errors_stay(lines, manifest, n, (m - 1) as nat);
    }
}

/// Configuration overrides that a module unit asks to be built against, from the lines of its
/// manifest.
pub fn overrides(lines: &Vec<String>, manifest: &str) -> (r: Result<Vec<(String, String)>, String>)
    ensures
        match r {
            Ok(v) => overrides_in(text::views(lines@), manifest@, lines@.len()) == Ok::<
                Seq<(Seq<char>, Seq<char>)>,
                Seq<char>,
            >(settings_of(v@)),
            Err(e) => overrides_in(text::views(lines@), manifest@, lines@.len()) == Err::<
                Seq<(Seq<char>, Seq<char>)>,
                Seq<char>,
            >(e@),
        },
{
    let ghost all = text::views(lines@);
    let mut out: Vec<(String, String)> = Vec::new();
    let mut i: usize = 0;
    assert(settings_of(out@) =~= seq![]);
    while i < lines.len()
        invariant
            i <= lines@.len(),
            all == text::views(lines@),
            overrides_in(all, manifest@, i as nat) == Ok::<Seq<(Seq<char>, Seq<char>)>, Seq<char>>(settings_of(out@)),
        decreases lines@.len() - i,
    {
        assert(all[i as int] == lines@[i as int]@);
        let l = text::chars(lines[i].as_str());
        let at: usize = text::find_char(l.as_slice(), '=', 0);
        if at >= l.len() {
            let mut e = manifest.to_owned();
            e.append(": config-overrides expects SYM=VALUE, got `");
            e.append(lines[i].as_str());
            e.append("`");
            proof {
                override_errors_stay(all, manifest@, (i + 1) as nat, all.len());
            }
            return Err(e);
        }
        let k = text::string(text::part(l.as_slice(), 0, at).as_slice());
        let v = text::string(text::part(l.as_slice(), at + 1, l.len()).as_slice());
        let ghost before = settings_of(out@);
        let ghost added = (k@, v@);
        out.push((k, v));
        assert(settings_of(out@) =~= before.push(added));
        i += 1;
    }
    Ok(out)
}

/// What a setting asks for: `!` is the opposite of the kernel's value, so that the module differs
/// from the kernel whichever way the kernel was configured.
pub open spec fn meant(o: resolve::Outcome, symbol: Seq<char>, value: Seq<char>) -> Seq<char> {
    if value != "!"@ {
        value
    } else if resolve::tri_in(o.names, o.vals, symbol) != expr::Tri::N {
        "n"@
    } else {
        "y"@
    }
}

/// Which of the first `n` settings names an unknown symbol: the first that does.
pub open spec fn unknown(t: kcfg::Table, settings: Seq<(Seq<char>, Seq<char>)>, n: nat) -> Option<Seq<char>>
    decreases n,
{
    if n == 0 {
        None
    } else if unknown(t, settings, (n - 1) as nat) is Some {
        unknown(t, settings, (n - 1) as nat)
    } else if kcfg::sym_from(t.symbols, settings[n - 1].0, 0) is None {
        Some(settings[n - 1].0)
    } else {
        None
    }
}

proof fn unknown_stays(t: kcfg::Table, settings: Seq<(Seq<char>, Seq<char>)>, n: nat, m: nat)
    requires
        unknown(t, settings, n) is Some,
        n <= m,
    ensures
        unknown(t, settings, m) == unknown(t, settings, n),
    decreases m,
{
    if n < m {
        unknown_stays(t, settings, n, (m - 1) as nat);
    }
}

/// The settings that a module's overrides come to in a configuration.
pub fn settle_overrides(table: &SymbolTable, res: &Resolution, extra: &Vec<(String, String)>, manifest: &str) -> (r:
    Result<Vec<(String, String)>, String>)
    ensures
        match unknown(table@, settings_of(extra@), extra@.len()) {
            Some(name) => r is Err && r->Err_0@ == manifest@ + ": overrides unknown symbol "@ + name,
            None => r is Ok && settings_of(r->Ok_0@) == settings_of(extra@).map_values(
                |s: (Seq<char>, Seq<char>)| (s.0, meant(res@, s.0, s.1)),
            ),
        },
{
    let ghost all = settings_of(extra@);
    let mut out: Vec<(String, String)> = Vec::new();
    let mut i: usize = 0;
    while i < extra.len()
        invariant
            i <= extra@.len(),
            all == settings_of(extra@),
            unknown(table@, all, i as nat) is None,
            out@.len() == i,
            forall|k: int|
                0 <= k < i ==> (#[trigger] out@[k]).0@ == all[k].0 && out@[k].1@ == meant(res@, all[k].0, all[k].1),
        decreases extra@.len() - i,
    {
        let s = &extra[i];
        assert(all[i as int] == (s.0@, s.1@));
        if table.get(s.0.as_str()).is_none() {
            let mut e = manifest.to_owned();
            e.append(": overrides unknown symbol ");
            e.append(s.0.as_str());
            proof {
                unknown_stays(table@, all, (i + 1) as nat, all.len());
            }
            return Err(e);
        }
        let v = if !text::same(s.1.as_str(), "!") {
            s.1.clone()
        } else if res.is_on(s.0.as_str()) {
            "n".to_owned()
        } else {
            "y".to_owned()
        };
        out.push((s.0.clone(), v));
        i += 1;
    }
    assert(settings_of(out@) =~= all.map_values(|s: (Seq<char>, Seq<char>)| (s.0, meant(res@, s.0, s.1))));
    Ok(out)
}

/// Refuse overrides that change nothing: a module built for the kernel it claims to differ from.
pub fn check_changed(kernel: &Resolution, module: &Resolution, manifest: &str) -> (r: Result<(), String>)
    ensures
        match r {
            Ok(_) => !(kernel@.names == module@.names && kernel@.vals == module@.vals),
            Err(e) => kernel@.names == module@.names && kernel@.vals == module@.vals && e@ == manifest@
                + ": config-overrides change nothing in this configuration, so the module would be built for the kernel it claims to differ from"@,
        },
{
    if kernel.same_values(module) {
        let mut e = manifest.to_owned();
        e.append(
            ": config-overrides change nothing in this configuration, so the module would be built for the kernel it claims to differ from",
        );
        return Err(e);
    }
    Ok(())
}

} // verus!
