//! A FAT volume read back: its chains, its directories, its files, and a walk over all of it.
//!
//! This shares no code with what writes a volume: it reads the boot sector's fields and the
//! tables directly and trusts none of them.

use vstd::prelude::*;
use vstd::slice::slice_subrange;
use vstd::string::*;

use super::plan;
use crate::bytes;
use crate::text;

verus! {

/// Directories a walk descends through before it calls the volume corrupt.
pub const MAX_DEPTH: usize = 16;

/// A volume's bytes, with its geometry in bytes.
pub struct Disk<'a> {
    pub bytes: &'a [u8],
    /// FAT32 rather than FAT16.
    pub wide: bool,
    pub cluster_size: usize,
    pub fat_start: usize,
    pub fats: usize,
    /// Bytes in one table.
    pub fat_bytes: usize,
    /// The root's own region, on a volume that has one.
    pub root_start: usize,
    pub root_entries: usize,
    pub data_start: usize,
    pub clusters: u32,
    /// The root's first cluster, on a volume whose root is a chain.
    pub root: u32,
}

/// A volume over mathematical values.
pub struct Media {
    pub bytes: Seq<u8>,
    pub wide: bool,
    pub cluster_size: int,
    pub fat_start: int,
    pub fats: int,
    pub fat_bytes: int,
    pub root_start: int,
    pub root_entries: int,
    pub data_start: int,
    pub clusters: int,
    pub root: int,
}

impl<'a> View for Disk<'a> {
    type V = Media;

    open spec fn view(&self) -> Media {
        Media {
            bytes: self.bytes@,
            wide: self.wide,
            cluster_size: self.cluster_size as int,
            fat_start: self.fat_start as int,
            fats: self.fats as int,
            fat_bytes: self.fat_bytes as int,
            root_start: self.root_start as int,
            root_entries: self.root_entries as int,
            data_start: self.data_start as int,
            clusters: self.clusters as int,
            root: self.root as int,
        }
    }
}

/// How many bytes an entry of the table takes.
pub open spec fn width(wide: bool) -> int {
    if wide {
        4
    } else {
        2
    }
}

/// What holds of the geometry of every volume that was opened: everything is inside it, and
/// every cluster has an entry in every table.
pub open spec fn fits(m: Media) -> bool {
    &&& 512 <= m.cluster_size <= 255 * 512
    &&& m.cluster_size % 512 == 0
    &&& 1 <= m.clusters <= u32::MAX - 2
    &&& !m.wide ==> m.clusters < 65525
    &&& 1 <= m.fats
    &&& 0 <= m.fat_start
    &&& (m.clusters + 2) * width(m.wide) <= m.fat_bytes
    &&& m.fat_start + m.fats * m.fat_bytes <= m.data_start
    &&& m.data_start + m.clusters * m.cluster_size <= m.bytes.len()
    &&& 0 <= m.root_start
    &&& 0 <= m.root_entries <= 0xFFFF
    &&& m.root_start + m.root_entries * plan::ENTRY <= m.bytes.len()
    &&& m.wide ==> 2 <= m.root < m.clusters + 2
}

/// What a table says of a cluster.
pub open spec fn table(m: Media, copy: int, cluster: int) -> int {
    let at = m.fat_start + copy * m.fat_bytes + cluster * width(m.wide);
    if m.wide {
        bytes::le32(m.bytes, at) % 0x1000_0000
    } else {
        bytes::le16(m.bytes, at)
    }
}

/// What marks a bad cluster.
pub open spec fn bad_mark(wide: bool) -> int {
    if wide {
        0x0FFF_FFF7
    } else {
        0xFFF7
    }
}

/// From where on an entry ends its chain.
pub open spec fn chain_end(wide: bool) -> int {
    if wide {
        0x0FFF_FFF8
    } else {
        0xFFF8
    }
}

/// The chain from `cluster` on by the first table, behind the clusters in `got`, or what is
/// wrong with it: a cluster outside the volume, a free or bad one, or a loop.
pub open spec fn chain(m: Media, cluster: int, got: Seq<int>) -> Result<Seq<int>, Seq<char>>
    decreases m.clusters + 1 - got.len(),
{
    let value = table(m, 0, cluster);
    if !(2 <= cluster < m.clusters + 2) {
        Err("a chain entry outside the volume: "@ + text::decimal(cluster))
    } else if value == 0 {
        Err("a chain through free cluster "@ + text::decimal(cluster))
    } else if value == bad_mark(m.wide) {
        Err("a chain through bad cluster "@ + text::decimal(cluster))
    } else if got.len() + 1 > m.clusters {
        Err("a chain that loops"@)
    } else if value >= chain_end(m.wide) {
        Ok(got.push(cluster))
    } else {
        chain(m, value, got.push(cluster))
    }
}

/// Where a cluster's bytes are.
pub open spec fn cluster_at(m: Media, cluster: int) -> int {
    m.data_start + (cluster - 2) * m.cluster_size
}

/// The bytes of the first `k` of these clusters.
pub open spec fn cluster_bytes(m: Media, cs: Seq<int>, k: nat) -> Seq<u8>
    decreases k,
{
    if k == 0 {
        seq![]
    } else {
        cluster_bytes(m, cs, (k - 1) as nat) + m.bytes.subrange(
            cluster_at(m, cs[k - 1]),
            cluster_at(m, cs[k - 1]) + m.cluster_size,
        )
    }
}

/// One named entry of a directory.
pub struct Found {
    pub name: Seq<char>,
    pub dir: bool,
    pub first: int,
    pub size: int,
}

pub open spec fn base_of(raw: Seq<u8>, i: int) -> Seq<char> {
    text::trim_end(text::decoded(raw.subrange(i, i + 8)))
}

pub open spec fn ext_of(raw: Seq<u8>, i: int) -> Seq<char> {
    text::trim_end(text::decoded(raw.subrange(i + 8, i + 11)))
}

/// Whether the entry at `i` names nothing: it was deleted, belongs to a long name or is the
/// label, or is one of the two that every directory begins with.
pub open spec fn skipped(raw: Seq<u8>, i: int) -> bool {
    let attr = raw[i + 11];
    let base = base_of(raw, i);
    raw[i] == 0xE5 || attr % 16 == 15 || attr / 8 % 2 == 1 || base.len() == 0 || base == "."@ || base == ".."@
}

/// What the entry at `i` says.
pub open spec fn found(wide: bool, raw: Seq<u8>, i: int) -> Found {
    let base = base_of(raw, i);
    let ext = ext_of(raw, i);
    Found {
        name: if ext.len() == 0 {
            base
        } else {
            base + "."@ + ext
        },
        dir: raw[i + 11] / 16 % 2 == 1,
        first: bytes::le16(raw, i + 26) + if wide {
            0x1_0000 * bytes::le16(raw, i + 20)
        } else {
            0
        },
        size: bytes::le32(raw, i + 28),
    }
}

/// The named entries from `i` on, up to the first free one.
pub open spec fn listing(wide: bool, raw: Seq<u8>, i: int) -> Seq<Found>
    decreases raw.len() - i,
{
    if i < 0 || i + plan::ENTRY > raw.len() || raw[i] == 0 {
        seq![]
    } else if skipped(raw, i) {
        listing(wide, raw, i + plan::ENTRY)
    } else {
        seq![found(wide, raw, i)] + listing(wide, raw, i + plan::ENTRY)
    }
}

/// The named entries of the root, or of the directory whose chain starts at a cluster.
pub open spec fn entries(m: Media, dir: Option<int>) -> Result<Seq<Found>, Seq<char>> {
    if dir is None && !m.wide {
        Ok(listing(false, m.bytes.subrange(m.root_start, m.root_start + m.root_entries * plan::ENTRY), 0))
    } else {
        let first = match dir {
            Some(c) => c,
            None => m.root,
        };
        match chain(m, first, seq![]) {
            Ok(cs) => Ok(listing(m.wide, cluster_bytes(m, cs, cs.len()), 0)),
            Err(e) => Err(e),
        }
    }
}

/// The first entry from `i` on that goes by `name`, without regard to case.
pub open spec fn named(es: Seq<Found>, name: Seq<char>, i: int) -> Option<Found>
    decreases es.len() - i,
{
    if i < 0 || i >= es.len() {
        None
    } else if text::folded(es[i].name) == text::folded(name) {
        Some(es[i])
    } else {
        named(es, name, i + 1)
    }
}

/// The components of a path, from the `i`th piece on.
pub open spec fn steps(ps: Seq<Seq<char>>, i: int) -> Seq<Seq<char>>
    decreases ps.len() - i,
{
    if i < 0 || i >= ps.len() {
        seq![]
    } else if ps[i].len() == 0 {
        steps(ps, i + 1)
    } else {
        seq![ps[i]] + steps(ps, i + 1)
    }
}

/// The components of a path.
pub open spec fn steps_of(path: Seq<char>) -> Seq<Seq<char>> {
    steps(text::pieces(path, '/', 0), 0)
}

/// The entry that the components from `i` on lead to, from the directory `dir`.
pub open spec fn sought(m: Media, parts: Seq<Seq<char>>, i: int, dir: Option<int>) -> Result<Option<Found>, Seq<char>>
    decreases parts.len() - i,
{
    if i < 0 || i >= parts.len() {
        Ok(None)
    } else {
        match entries(m, dir) {
            Err(e) => Err(e),
            Ok(es) => match named(es, parts[i], 0) {
                None => Ok(None),
                Some(e) => if i + 1 == parts.len() {
                    Ok(Some(e))
                } else if !e.dir {
                    Ok(None)
                } else {
                    sought(m, parts, i + 1, Some(e.first))
                },
            },
        }
    }
}

/// The entry a path names.
pub open spec fn find(m: Media, path: Seq<char>) -> Result<Option<Found>, Seq<char>> {
    sought(m, steps_of(path), 0, None)
}

/// The bytes of the file a path names, nothing if nothing is there.
pub open spec fn read(m: Media, path: Seq<char>) -> Result<Option<Seq<u8>>, Seq<char>> {
    match find(m, path) {
        Err(e) => Err(e),
        Ok(None) => Ok(None),
        Ok(Some(e)) => if e.dir {
            Err(path + " is a directory"@)
        } else if e.first == 0 {
            Ok(Some(seq![]))
        } else {
            match chain(m, e.first, seq![]) {
                Err(x) => Err(x),
                Ok(cs) => {
                    let data = cluster_bytes(m, cs, cs.len());
                    if data.len() < e.size {
                        Err(path + ": a chain shorter than the file"@)
                    } else {
                        Ok(Some(data.subrange(0, e.size)))
                    }
                },
            }
        },
    }
}

/// The files among the entries from `i` on of the directory a path names, each with its bytes.
pub open spec fn files_from(m: Media, path: Seq<char>, es: Seq<Found>, i: int) -> Result<
    Seq<(Seq<char>, Seq<u8>)>,
    Seq<char>,
>
    decreases es.len() - i,
{
    if i < 0 || i >= es.len() {
        Ok(seq![])
    } else if es[i].dir {
        files_from(m, path, es, i + 1)
    } else {
        match read(m, path + "/"@ + es[i].name) {
            Err(e) => Err(e),
            Ok(d) => match files_from(m, path, es, i + 1) {
                Err(e) => Err(e),
                Ok(rest) => Ok(
                    seq![
                        (
                            es[i].name,
                            match d {
                                Some(x) => x,
                                None => seq![],
                            },
                        ),
                    ] + rest,
                ),
            },
        }
    }
}

/// The files directly in the directory a path names, nothing if there is no such directory.
pub open spec fn files_in(m: Media, path: Seq<char>) -> Result<Option<Seq<(Seq<char>, Seq<u8>)>>, Seq<char>> {
    match find(m, path) {
        Err(e) => Err(e),
        Ok(None) => Ok(None),
        Ok(Some(d)) => if !d.dir {
            Ok(None)
        } else {
            match entries(m, Some(d.first)) {
                Err(e) => Err(e),
                Ok(es) => match files_from(m, path, es, 0) {
                    Err(e) => Err(e),
                    Ok(v) => Ok(Some(v)),
                },
            }
        },
    }
}

// ---- the walk ----

/// What a walk has come to: which clusters some chain claims, and how many files, directories
/// and claimed clusters there were.
pub struct Walk {
    pub seen: Seq<bool>,
    pub files: int,
    pub dirs: int,
    pub claimed: int,
}

/// The clusters seen once those of a chain from `i` on are claimed too, or the first of them
/// that was claimed before.
pub open spec fn claim(seen: Seq<bool>, cs: Seq<int>, i: int) -> Result<Seq<bool>, int>
    decreases cs.len() - i,
{
    if i < 0 || i >= cs.len() {
        Ok(seen)
    } else if seen[cs[i]] {
        Err(cs[i])
    } else {
        claim(seen.update(cs[i], true), cs, i + 1)
    }
}

/// What comes of the entry `e`, before what is below it: the walk so far, or what is wrong.
pub open spec fn visited(m: Media, e: Found, here: Seq<char>, w: Walk) -> Result<Walk, Seq<char>> {
    let counted = if e.dir {
        Walk { dirs: w.dirs + 1, ..w }
    } else {
        Walk { files: w.files + 1, ..w }
    };
    if e.first == 0 {
        if e.dir {
            Err(here + ": a directory with no clusters"@)
        } else if e.size != 0 {
            Err(here + ": "@ + text::decimal(e.size) + " bytes and no clusters"@)
        } else {
            Ok(counted)
        }
    } else {
        match chain(m, e.first, seq![]) {
            Err(x) => Err(here + ": "@ + x),
            Ok(cs) => match claim(w.seen, cs, 0) {
                Err(c) => Err(here + ": cluster "@ + text::decimal(c) + " is claimed twice"@),
                Ok(seen) => if !e.dir && cs.len() < plan::cover(e.size, m.cluster_size) {
                    Err(
                        here + ": "@ + text::decimal(cs.len() as int) + " clusters hold a "@ + text::decimal(e.size)
                            + "-byte file"@,
                    )
                } else {
                    Ok(Walk { seen, claimed: counted.claimed + cs.len(), ..counted })
                },
            },
        }
    }
}

/// The walk over the directory `dir`, which `path` names.
pub open spec fn walked(m: Media, dir: Option<int>, path: Seq<char>, depth: nat, w: Walk) -> Result<Walk, Seq<char>>
    decreases 2 * (MAX_DEPTH + 2 - depth) + 1, 0int,
{
    if depth > MAX_DEPTH {
        Err(path + ": directories nested too deep"@)
    } else {
        match entries(m, dir) {
            Err(e) => Err(e),
            Ok(es) => walked_from(m, es, 0, path, depth, w),
        }
    }
}

/// The walk over the entries from `i` on of the directory that `path` names.
pub open spec fn walked_from(m: Media, es: Seq<Found>, i: int, path: Seq<char>, depth: nat, w: Walk) -> Result<
    Walk,
    Seq<char>,
>
    decreases 2 * (MAX_DEPTH + 2 - depth), es.len() - i,
{
    if i < 0 || i >= es.len() || depth > MAX_DEPTH {
        Ok(w)
    } else {
        let e = es[i];
        let here = path + "/"@ + e.name;
        match visited(m, e, here, w) {
            Err(x) => Err(x),
            Ok(w1) => if e.dir {
                match walked(m, Some(e.first), here, depth + 1, w1) {
                    Err(x) => Err(x),
                    Ok(w2) => walked_from(m, es, i + 1, path, depth, w2),
                }
            } else {
                walked_from(m, es, i + 1, path, depth, w1)
            },
        }
    }
}

/// Whether the tables from `copy` on disagree with the first on a cluster.
pub open spec fn differs(m: Media, cluster: int, copy: int) -> bool
    decreases m.fats - copy,
{
    if copy >= m.fats {
        false
    } else {
        table(m, copy, cluster) != table(m, 0, cluster) || differs(m, cluster, copy + 1)
    }
}

/// Of the clusters before `c`: how many the first table allocates that no chain claims, on how
/// many the tables disagree, and how many are free.
pub struct Rest {
    pub lost: int,
    pub differ: int,
    pub free: int,
}

pub open spec fn rest(m: Media, seen: Seq<bool>, c: int) -> Rest
    decreases c,
{
    if c <= 2 {
        Rest { lost: 0, differ: 0, free: 0 }
    } else {
        let before = rest(m, seen, c - 1);
        let first = table(m, 0, c - 1);
        Rest {
            lost: before.lost + if first != 0 && first != bad_mark(m.wide) && !seen[c - 1] {
                1int
            } else {
                0int
            },
            differ: before.differ + if differs(m, c - 1, 1) {
                1int
            } else {
                0int
            },
            free: before.free + if first == 0 {
                1int
            } else {
                0int
            },
        }
    }
}

/// Nothing claimed.
pub open spec fn unclaimed(m: Media) -> Seq<bool> {
    Seq::new((m.clusters + 2) as nat, |i: int| false)
}

/// The walk over the whole volume. A root that is a chain is claimed like any directory.
pub open spec fn surveyed(m: Media) -> Result<Walk, Seq<char>> {
    let w = Walk { seen: unclaimed(m), files: 0, dirs: 0, claimed: 0 };
    if m.wide {
        match chain(m, m.root, seq![]) {
            Err(e) => Err(e),
            Ok(cs) => walked(
                m,
                None,
                ""@,
                0,
                Walk { seen: marked(w.seen, cs, cs.len()), claimed: cs.len() as int, ..w },
            ),
        }
    } else {
        walked(m, None, ""@, 0, w)
    }
}

/// The clusters seen once the first `k` of a chain are marked.
pub open spec fn marked(seen: Seq<bool>, cs: Seq<int>, k: nat) -> Seq<bool>
    decreases k,
{
    if k == 0 {
        seen
    } else {
        marked(seen, cs, (k - 1) as nat).update(cs[k - 1], true)
    }
}

// ---- reading ----

/// One named entry of a directory.
pub struct Named {
    pub name: String,
    pub dir: bool,
    pub first: u32,
    pub size: u32,
}

impl View for Named {
    type V = Found;

    open spec fn view(&self) -> Found {
        Found { name: self.name@, dir: self.dir, first: self.first as int, size: self.size as int }
    }
}

pub open spec fn named_views(v: Seq<Named>) -> Seq<Found> {
    Seq::new(v.len(), |i: int| v[i]@)
}

proof fn table_inside(m: Media, copy: int, cluster: int)
    requires
        fits(m),
        0 <= copy < m.fats,
        0 <= cluster < m.clusters + 2,
    ensures
        0 <= copy * m.fat_bytes,
        0 <= m.fat_start + copy * m.fat_bytes + cluster * width(m.wide),
        m.fat_start + copy * m.fat_bytes + cluster * width(m.wide) + width(m.wide) <= m.bytes.len(),
{
    let c = m.clusters * m.cluster_size;
    assert(c >= 0) by (nonlinear_arith)
        requires
            c == m.clusters * m.cluster_size,
            m.clusters >= 0,
            m.cluster_size >= 0,
    ;
    assert(0 <= copy * m.fat_bytes && copy * m.fat_bytes + m.fat_bytes <= m.fats * m.fat_bytes) by (nonlinear_arith)
        requires
            0 <= copy,
            copy + 1 <= m.fats,
            m.fat_bytes >= 0,
    ;
}

proof fn cluster_inside(m: Media, cluster: int)
    requires
        fits(m),
        2 <= cluster < m.clusters + 2,
    ensures
        0 <= (cluster - 2) * m.cluster_size,
        0 <= cluster_at(m, cluster),
        cluster_at(m, cluster) + m.cluster_size <= m.bytes.len(),
{
    assert(0 <= (cluster - 2) * m.cluster_size && (cluster - 2) * m.cluster_size + m.cluster_size <= m.clusters
        * m.cluster_size) by (nonlinear_arith)
        requires
            0 <= cluster - 2,
            cluster - 2 + 1 <= m.clusters,
            m.cluster_size >= 0,
    ;
    assert(0 <= m.fats * m.fat_bytes) by (nonlinear_arith)
        requires
            m.fats >= 0,
            m.fat_bytes >= 0,
    ;
}

proof fn cluster_bytes_len(m: Media, cs: Seq<int>, k: nat)
    requires
        fits(m),
        k <= cs.len(),
        forall|i: int| 0 <= i < cs.len() ==> 2 <= #[trigger] cs[i] < m.clusters + 2,
    ensures
        cluster_bytes(m, cs, k).len() == k * m.cluster_size,
    decreases k,
{
    if k > 0 {
        cluster_bytes_len(m, cs, (k - 1) as nat);
        cluster_inside(m, cs[k - 1]);
        assert((k - 1) * m.cluster_size + m.cluster_size == k * m.cluster_size) by (nonlinear_arith);
    } else {
        assert(0 * m.cluster_size == 0) by (nonlinear_arith);
    }
}

proof fn listing_bounded(wide: bool, raw: Seq<u8>, i: int)
    requires
        0 <= i <= raw.len(),
    ensures
        listing(wide, raw, i).len() * 32 <= raw.len() - i,
    decreases raw.len() - i,
{
    if i + plan::ENTRY <= raw.len() && raw[i] != 0 {
        listing_bounded(wide, raw, i + plan::ENTRY);
    }
}

fn text2(a: &str, b: &str) -> (r: String)
    ensures
        r@ == a@ + b@,
{
    let mut r = a.to_owned();
    r.append(b);
    r
}

fn with_number(a: &str, n: u32) -> (r: String)
    ensures
        r@ == a@ + text::decimal(n as int),
{
    text2(a, text::int_text(n as i128).as_str())
}

fn list_entries(wide: bool, raw: &[u8]) -> (r: Vec<Named>)
    ensures
        named_views(r@) == listing(wide, raw@, 0),
{
    let ghost b = raw@;
    let mut out: Vec<Named> = Vec::new();
    let mut i: usize = 0;
    assert(named_views(out@) + listing(wide, b, 0) =~= listing(wide, b, 0));
    while raw.len() - i >= 32 && raw[i] != 0
        invariant
            b == raw@,
            i <= b.len(),
            named_views(out@) + listing(wide, b, i as int) == listing(wide, b, 0),
        decreases b.len() - i,
    {
        let attr: u8 = raw[i + 11];
        let base = {
            let t = text::decode(slice_subrange(raw, i, i + 8));
            let c = text::chars(t.as_str());
            text::string(text::trim_end_chars(c.as_slice()).as_slice())
        };
        assert(base@ == base_of(b, i as int));
        let ext = {
            let t = text::decode(slice_subrange(raw, i + 8, i + 11));
            let c = text::chars(t.as_str());
            text::string(text::trim_end_chars(c.as_slice()).as_slice())
        };
        assert(ext@ == ext_of(b, i as int));
        let skip = raw[i] == 0xE5 || attr % 16 == 15 || attr / 8 % 2 == 1 || base.as_str().is_empty()
            || text::same(base.as_str(), ".") || text::same(base.as_str(), "..");
        assert(skip == skipped(b, i as int));
        if !skip {
            let low: u16 = bytes::get_le16(raw, i + 26);
            let high: u16 = bytes::get_le16(raw, i + 20);
            let first: u32 = if wide {
                low as u32 + 0x1_0000 * high as u32
            } else {
                low as u32
            };
            let size: u32 = bytes::get_le32(raw, i + 28);
            let plain = ext.as_str().is_empty();
            let name = if plain {
                base
            } else {
                let mut n = base;
                n.append(".");
                n.append(ext.as_str());
                n
            };
            let ghost before = named_views(out@);
            let e = Named { name, dir: attr / 16 % 2 == 1, first, size };
            let ghost v = e@;
            assert(v == found(wide, b, i as int));
            out.push(e);
            assert(named_views(out@) =~= before.push(v));
            assert(before + (seq![v] + listing(wide, b, i + 32)) =~= before.push(v) + listing(wide, b, i + 32));
        }
        i = i + 32;
    }
    assert(listing(wide, b, i as int) =~= seq![]);
    assert(named_views(out@) + seq![] =~= named_views(out@));
    out
}

impl<'a> Disk<'a> {
    fn table(&self, copy: usize, cluster: u32) -> (r: u32)
        requires
            fits(self@),
            copy < self.fats,
            cluster < self.clusters + 2,
        ensures
            r == table(self@, copy as int, cluster as int),
    {
        proof {
            table_inside(self@, copy as int, cluster as int);
        }
        let ghost n = self.bytes.len();
        if self.wide {
            let at: usize = self.fat_start + copy * self.fat_bytes + cluster as usize * 4;
            bytes::get_le32(self.bytes, at) % 0x1000_0000
        } else {
            let at: usize = self.fat_start + copy * self.fat_bytes + cluster as usize * 2;
            bytes::get_le16(self.bytes, at) as u32
        }
    }

    /// The chain from `first` by the first table, refusing a cluster outside the volume, a
    /// free or bad one, and a loop.
    fn chain(&self, first: u32) -> (r: Result<Vec<u32>, String>)
        requires
            fits(self@),
        ensures
            match r {
                Ok(v) => chain(self@, first as int, seq![]) == Ok::<Seq<int>, Seq<char>>(plan::numbers(v@))
                    && v@.len() <= self.clusters && forall|i: int|
                    0 <= i < v@.len() ==> 2 <= #[trigger] v@[i] < self.clusters + 2,
                Err(m) => chain(self@, first as int, seq![]) == Err::<Seq<int>, Seq<char>>(m@),
            },
    {
        let ghost m = self@;
        let ghost want = chain(m, first as int, seq![]);
        let bad: u32 = if self.wide {
            0x0FFF_FFF7
        } else {
            0xFFF7
        };
        let end: u32 = if self.wide {
            0x0FFF_FFF8
        } else {
            0xFFF8
        };
        let mut out: Vec<u32> = Vec::new();
        let mut cluster: u32 = first;
        assert(plan::numbers(out@) =~= seq![]);
        loop
            invariant
                m == self@,
                fits(m),
                bad == bad_mark(self.wide),
                end == chain_end(self.wide),
                out@.len() <= self.clusters,
                forall|i: int| 0 <= i < out@.len() ==> 2 <= #[trigger] out@[i] < self.clusters + 2,
                chain(m, cluster as int, plan::numbers(out@)) == want,
                want == chain(m, first as int, seq![]),
            decreases m.clusters + 1 - out@.len(),
        {
            if cluster < 2 || cluster >= self.clusters + 2 {
                return Err(with_number("a chain entry outside the volume: ", cluster));
            }
            let value: u32 = self.table(0, cluster);
            if value == 0 {
                return Err(with_number("a chain through free cluster ", cluster));
            }
            if value == bad {
                return Err(with_number("a chain through bad cluster ", cluster));
            }
            let ghost before = plan::numbers(out@);
            assert(before.len() == out@.len());
            if out.len() as u64 >= self.clusters as u64 {
                return Err("a chain that loops".to_owned());
            }
            out.push(cluster);
            assert(plan::numbers(out@) =~= before.push(cluster as int));
            if value >= end {
                return Ok(out);
            }
            cluster = value;
        }
    }

    fn gather(&self, cs: &Vec<u32>) -> (r: Vec<u8>)
        requires
            fits(self@),
            forall|i: int| 0 <= i < cs@.len() ==> 2 <= #[trigger] cs@[i] < self.clusters + 2,
        ensures
            r@ == cluster_bytes(self@, plan::numbers(cs@), cs@.len()),
    {
        let ghost m = self@;
        let ghost ids = plan::numbers(cs@);
        let mut out: Vec<u8> = Vec::new();
        let mut i: usize = 0;
        assert(out@ =~= cluster_bytes(m, ids, 0));
        while i < cs.len()
            invariant
                m == self@,
                fits(m),
                ids == plan::numbers(cs@),
                forall|k: int| 0 <= k < cs@.len() ==> 2 <= #[trigger] cs@[k] < self.clusters + 2,
                i <= cs@.len(),
                out@ == cluster_bytes(m, ids, i as nat),
            decreases cs@.len() - i,
        {
            let ghost n = self.bytes.len();
            let c: u32 = cs[i];
            proof {
                cluster_inside(m, c as int);
            }
            assert(ids[i as int] == c);
            let at: usize = self.data_start + (c as usize - 2) * self.cluster_size;
            bytes::push_all(&mut out, slice_subrange(self.bytes, at, at + self.cluster_size));
            i += 1;
        }
        out
    }

    /// The named entries of the root (`None`) or of the directory starting at `first`.
    fn entries(&self, first: Option<u32>) -> (r: Result<Vec<Named>, String>)
        requires
            fits(self@),
        ensures
            match r {
                Ok(v) => entries(self@, opt(first)) == Ok::<Seq<Found>, Seq<char>>(named_views(v@)),
                Err(m) => entries(self@, opt(first)) == Err::<Seq<Found>, Seq<char>>(m@),
            },
    {
        let from: u32 = match first {
            Some(c) => c,
            None => {
                if !self.wide {
                    let ghost n = self.bytes.len();
                    let raw = slice_subrange(
                        self.bytes,
                        self.root_start,
                        self.root_start + self.root_entries * 32,
                    );
                    return Ok(list_entries(false, raw));
                }
                self.root
            },
        };
        match self.chain(from) {
            Ok(cs) => {
                let raw = self.gather(&cs);
                assert(plan::numbers(cs@).len() == cs@.len());
                Ok(list_entries(self.wide, raw.as_slice()))
            },
            Err(e) => Err(e),
        }
    }

    /// The entry `path` names, comparing names as FAT does: without regard to case.
    fn find(&self, path: &str) -> (r: Result<Option<Named>, String>)
        requires
            fits(self@),
        ensures
            match r {
                Ok(Some(e)) => find(self@, path@) == Ok::<Option<Found>, Seq<char>>(Some(e@)),
                Ok(None) => find(self@, path@) == Ok::<Option<Found>, Seq<char>>(None),
                Err(m) => find(self@, path@) == Err::<Option<Found>, Seq<char>>(m@),
            },
    {
        let ghost m = self@;
        let c = text::chars(path);
        let pieces = text::split_on(c.as_slice(), '/');
        let parts = keep_steps(&pieces);
        let ghost ps = text::char_views(parts@);
        let mut dir: Option<u32> = None;
        let mut i: usize = 0;
        while i < parts.len()
            invariant
                m == self@,
                fits(m),
                ps == text::char_views(parts@),
                ps == steps_of(path@),
                i <= parts@.len(),
                find(m, path@) == sought(m, ps, i as int, opt(dir)),
            decreases parts@.len() - i,
        {
            assert(ps[i as int] == parts@[i as int]@);
            let es = match self.entries(dir) {
                Ok(es) => es,
                Err(e) => return Err(e),
            };
            let e = match take_named(es, parts[i].as_slice()) {
                Some(e) => e,
                None => return Ok(None),
            };
            if i + 1 == parts.len() {
                return Ok(Some(e));
            }
            if !e.dir {
                return Ok(None);
            }
            dir = Some(e.first);
            i += 1;
        }
        Ok(None)
    }

    /// Whether `path` names anything.
    pub fn has(&self, path: &str) -> (r: Result<bool, String>)
        requires
            fits(self@),
        ensures
            match r {
                Ok(b) => find(self@, path@) is Ok && b == (find(self@, path@)->Ok_0 is Some),
                Err(m) => find(self@, path@) == Err::<Option<Found>, Seq<char>>(m@),
            },
    {
        match self.find(path) {
            Ok(e) => Ok(e.is_some()),
            Err(m) => Err(m),
        }
    }

    /// The bytes of the file `path` names, `None` if nothing is there.
    pub fn read(&self, path: &str) -> (r: Result<Option<Vec<u8>>, String>)
        requires
            fits(self@),
        ensures
            match r {
                Ok(Some(v)) => read(self@, path@) == Ok::<Option<Seq<u8>>, Seq<char>>(Some(v@)),
                Ok(None) => read(self@, path@) == Ok::<Option<Seq<u8>>, Seq<char>>(None),
                Err(m) => read(self@, path@) == Err::<Option<Seq<u8>>, Seq<char>>(m@),
            },
    {
        let e = match self.find(path) {
            Ok(Some(e)) => e,
            Ok(None) => return Ok(None),
            Err(m) => return Err(m),
        };
        if e.dir {
            return Err(text2(path, " is a directory"));
        }
        if e.first == 0 {
            let none: Vec<u8> = Vec::new();
            assert(none@ =~= seq![]);
            return Ok(Some(none));
        }
        let cs = match self.chain(e.first) {
            Ok(cs) => cs,
            Err(m) => return Err(m),
        };
        assert(plan::numbers(cs@).len() == cs@.len());
        let mut data = self.gather(&cs);
        if (data.len() as u64) < e.size as u64 {
            return Err(text2(path, ": a chain shorter than the file"));
        }
        let ghost whole = data@;
        data.truncate(e.size as usize);
        assert(data@ =~= whole.subrange(0, e.size as int));
        Ok(Some(data))
    }

    /// The files directly in the directory `path` names, by name, `None` if there is none: where
    /// the path names nothing, and where it names a file.
    pub fn files_in(&self, path: &str) -> (r: Result<Option<Vec<(String, Vec<u8>)>>, String>)
        requires
            fits(self@),
        ensures
            match r {
                Ok(Some(v)) => files_in(self@, path@) == Ok::<Option<Seq<(Seq<char>, Seq<u8>)>>, Seq<char>>(
                    Some(file_views(v@)),
                ),
                Ok(None) => files_in(self@, path@) == Ok::<Option<Seq<(Seq<char>, Seq<u8>)>>, Seq<char>>(None),
                Err(m) => files_in(self@, path@) == Err::<Option<Seq<(Seq<char>, Seq<u8>)>>, Seq<char>>(m@),
            },
    {
        let ghost m = self@;
        let dir = match self.find(path) {
            Ok(Some(e)) => e,
            Ok(None) => return Ok(None),
            Err(m) => return Err(m),
        };
        if !dir.dir {
            return Ok(None);
        }
        let es = match self.entries(Some(dir.first)) {
            Ok(es) => es,
            Err(m) => return Err(m),
        };
        let ghost fs = named_views(es@);
        let mut out: Vec<(String, Vec<u8>)> = Vec::new();
        let mut i: usize = 0;
        assert(join_files(file_views(out@), files_from(m, path@, fs, 0)) == files_from(m, path@, fs, 0)) by {
            let x = files_from(m, path@, fs, 0);
            if x is Ok {
                assert(file_views(out@) + x->Ok_0 =~= x->Ok_0);
            }
        }
        while i < es.len()
            invariant
                m == self@,
                fits(m),
                fs == named_views(es@),
                i <= es@.len(),
                join_files(file_views(out@), files_from(m, path@, fs, i as int)) == files_from(m, path@, fs, 0),
                files_in(m, path@) == (match files_from(m, path@, fs, 0) {
                    Err(e) => Err::<Option<Seq<(Seq<char>, Seq<u8>)>>, Seq<char>>(e),
                    Ok(v) => Ok(Some(v)),
                }),
            decreases es@.len() - i,
        {
            assert(fs[i as int] == es@[i as int]@);
            if !es[i].dir {
                let mut whole = text2(path, "/");
                whole.append(es[i].name.as_str());
                let data = match self.read(whole.as_str()) {
                    Ok(Some(d)) => d,
                    Ok(None) => {
                        let none: Vec<u8> = Vec::new();
                        assert(none@ =~= seq![]);
                        none
                    },
                    Err(m) => return Err(m),
                };
                let ghost before = file_views(out@);
                let ghost one = (es@[i as int].name@, data@);
                out.push((es[i].name.clone(), data));
                assert(file_views(out@) =~= before.push(one));
                proof {
                    let r = files_from(m, path@, fs, i + 1);
                    if r is Ok {
                        assert(before + (seq![one] + r->Ok_0) =~= before.push(one) + r->Ok_0);
                    }
                }
            }
            i += 1;
        }
        assert(file_views(out@) + seq![] =~= file_views(out@));
        Ok(Some(out))
    }
}

pub open spec fn opt(c: Option<u32>) -> Option<int> {
    match c {
        Some(x) => Some(x as int),
        None => None,
    }
}

pub open spec fn file_views(v: Seq<(String, Vec<u8>)>) -> Seq<(Seq<char>, Seq<u8>)> {
    Seq::new(v.len(), |i: int| (v[i].0@, v[i].1@))
}

spec fn join_files(a: Seq<(Seq<char>, Seq<u8>)>, r: Result<Seq<(Seq<char>, Seq<u8>)>, Seq<char>>) -> Result<
    Seq<(Seq<char>, Seq<u8>)>,
    Seq<char>,
> {
    match r {
        Ok(b) => Ok(a + b),
        Err(e) => Err(e),
    }
}

fn keep_steps(pieces: &Vec<Vec<char>>) -> (r: Vec<Vec<char>>)
    ensures
        text::char_views(r@) == steps(text::char_views(pieces@), 0),
{
    let ghost ps = text::char_views(pieces@);
    let mut out: Vec<Vec<char>> = Vec::new();
    let mut i: usize = 0;
    assert(text::char_views(out@) + steps(ps, 0) =~= steps(ps, 0));
    while i < pieces.len()
        invariant
            ps == text::char_views(pieces@),
            i <= pieces@.len(),
            text::char_views(out@) + steps(ps, i as int) == steps(ps, 0),
        decreases pieces@.len() - i,
    {
        assert(ps[i as int] == pieces@[i as int]@);
        if pieces[i].len() > 0 {
            let ghost before = text::char_views(out@);
            let p = text::part(pieces[i].as_slice(), 0, pieces[i].len());
            assert(p@ =~= ps[i as int]);
            out.push(p);
            assert(text::char_views(out@) =~= before.push(ps[i as int]));
            assert(before + (seq![ps[i as int]] + steps(ps, i + 1)) =~= before.push(ps[i as int]) + steps(ps, i + 1));
        }
        i += 1;
    }
    assert(text::char_views(out@) + seq![] =~= text::char_views(out@));
    out
}

fn take_named(es: Vec<Named>, name: &[char]) -> (r: Option<Named>)
    ensures
        match r {
            Some(e) => named(named_views(es@), name@, 0) == Some(e@),
            None => named(named_views(es@), name@, 0) is None,
        },
{
    let ghost fs = named_views(es@);
    let mut i: usize = 0;
    while i < es.len()
        invariant
            fs == named_views(es@),
            i <= es@.len(),
            named(fs, name@, 0) == named(fs, name@, i as int),
        decreases es@.len() - i,
    {
        assert(fs[i as int] == es@[i as int]@);
        if text::same_folded(es[i].name.as_str(), name) {
            let e = &es[i];
            return Some(Named { name: e.name.clone(), dir: e.dir, first: e.first, size: e.size });
        }
        i += 1;
    }
    None
}

// ---- the walk, executable ----

/// How many clusters are claimed.
pub open spec fn trues(s: Seq<bool>, k: nat) -> int
    decreases k,
{
    if k == 0 {
        0
    } else {
        trues(s, (k - 1) as nat) + if s[k - 1] {
            1int
        } else {
            0int
        }
    }
}

proof fn trues_bounded(s: Seq<bool>, k: nat)
    ensures
        0 <= trues(s, k) <= k,
    decreases k,
{
    if k > 0 {
        trues_bounded(s, (k - 1) as nat);
    }
}

proof fn trues_after(s: Seq<bool>, i: int, k: nat)
    requires
        0 <= i < s.len(),
        k <= s.len(),
        !s[i],
    ensures
        trues(s.update(i, true), k) == trues(s, k) + if i < k {
            1int
        } else {
            0int
        },
    decreases k,
{
    if k > 0 {
        trues_after(s, i, (k - 1) as nat);
    }
}

/// Whether what a walk of the whole volume counts fits the numbers it is reported in.
pub open spec fn reportable(m: Media) -> bool {
    match surveyed(m) {
        Ok(w) => w.files <= u32::MAX && w.dirs <= u32::MAX && w.claimed <= u32::MAX,
        Err(_) => true,
    }
}

/// How many entries a walk can meet, whatever the volume holds.
pub open spec fn most_entries(m: Media) -> int {
    0xFFFF + (2 * m.clusters + 2) * (m.cluster_size / 32)
}

/// What bounds the counts of a walk: every entry met lies in the root's region or in a cluster
/// that some chain claims.
spec fn bounded(m: Media, seen: Seq<bool>, files: int, dirs: int, claimed: int, pending: int) -> bool {
    &&& seen.len() == m.clusters + 2
    &&& 0 <= files
    &&& 0 <= dirs
    &&& 0 <= claimed
    &&& claimed <= m.clusters + trues(seen, seen.len())
    &&& files + dirs + pending <= 0xFFFF + claimed * (m.cluster_size / 32)
}

proof fn counts_fit(m: Media, seen: Seq<bool>, files: int, dirs: int, claimed: int, pending: int)
    requires
        fits(m),
        bounded(m, seen, files, dirs, claimed, pending),
    ensures
        files + dirs + pending <= most_entries(m) <= u64::MAX,
        claimed <= 2 * m.clusters + 2 <= most_entries(m),
{
    trues_bounded(seen, seen.len());
    let k = m.cluster_size / 32;
    assert(claimed * k <= (2 * m.clusters + 2) * k) by (nonlinear_arith)
        requires
            claimed <= 2 * m.clusters + 2,
            k >= 0,
    ;
    assert(2 * m.clusters + 2 <= (2 * m.clusters + 2) * k <= (2 * m.clusters + 2) * 4080) by (nonlinear_arith)
        requires
            1 <= k <= 4080,
            m.clusters >= 0,
    ;
}

/// How a walk stands.
pub struct Tally {
    pub seen: Vec<bool>,
    pub files: u64,
    pub dirs: u64,
    pub claimed: u64,
}

impl View for Tally {
    type V = Walk;

    open spec fn view(&self) -> Walk {
        Walk { seen: self.seen@, files: self.files as int, dirs: self.dirs as int, claimed: self.claimed as int }
    }
}

pub(crate) proof fn claim_counts(seen: Seq<bool>, cs: Seq<int>, i: int)
    requires
        claim(seen, cs, i) is Ok,
        0 <= i <= cs.len(),
        forall|k: int| 0 <= k < cs.len() ==> 0 <= #[trigger] cs[k] < seen.len(),
    ensures
        claim(seen, cs, i)->Ok_0.len() == seen.len(),
        trues(claim(seen, cs, i)->Ok_0, seen.len()) == trues(seen, seen.len()) + cs.len() - i,
    decreases cs.len() - i,
{
    if i < cs.len() {
        trues_after(seen, cs[i], seen.len());
        claim_counts(seen.update(cs[i], true), cs, i + 1);
    }
}

impl Tally {
    fn claim(&mut self, cs: &Vec<u32>) -> (r: Option<u32>)
        requires
            forall|k: int| 0 <= k < cs@.len() ==> #[trigger] cs@[k] < old(self).seen@.len(),
        ensures
            match r {
                None => claim(old(self).seen@, plan::numbers(cs@), 0) == Ok::<Seq<bool>, int>(final(self).seen@)
                    && final(self).files == old(self).files && final(self).dirs == old(self).dirs
                    && final(self).claimed == old(self).claimed,
                Some(c) => claim(old(self).seen@, plan::numbers(cs@), 0) == Err::<Seq<bool>, int>(c as int),
            },
    {
        let ghost ids = plan::numbers(cs@);
        let ghost start = self.seen@;
        let mut i: usize = 0;
        while i < cs.len()
            invariant
                ids == plan::numbers(cs@),
                i <= cs@.len(),
                forall|k: int| 0 <= k < cs@.len() ==> #[trigger] cs@[k] < self.seen@.len(),
                claim(start, ids, 0) == claim(self.seen@, ids, i as int),
                start == old(self).seen@,
                self.files == old(self).files,
                self.dirs == old(self).dirs,
                self.claimed == old(self).claimed,
            decreases cs@.len() - i,
        {
            let c: usize = cs[i] as usize;
            assert(ids[i as int] == c);
            if self.seen[c] {
                return Some(cs[i]);
            }
            self.seen[c] = true;
            i += 1;
        }
        None
    }
}

impl<'a> Disk<'a> {
    fn visit(&self, e: &Named, here: &str, w: &mut Tally, Ghost(pending): Ghost<int>) -> (r: Result<(), String>)
        requires
            fits(self@),
            pending >= 1,
            bounded(
                self@,
                old(w)@.seen,
                old(w)@.files,
                old(w)@.dirs,
                old(w)@.claimed,
                pending,
            ),
        ensures
            match r {
                Ok(_) => visited(self@, e@, here@, old(w)@) == Ok::<Walk, Seq<char>>(final(w)@) && bounded(
                    self@,
                    final(w)@.seen,
                    final(w)@.files,
                    final(w)@.dirs,
                    final(w)@.claimed,
                    pending - 1 + if e.dir {
                        match entries(self@, Some(e.first as int)) {
                            Ok(es) => es.len() as int,
                            Err(_) => 0,
                        }
                    } else {
                        0
                    },
                ),
                Err(m) => visited(self@, e@, here@, old(w)@) == Err::<Walk, Seq<char>>(m@),
            },
    {
        let ghost m = self@;
        let ghost w0 = w@;
        proof {
            counts_fit(m, w0.seen, w0.files, w0.dirs, w0.claimed, pending);
        }
        if e.dir {
            w.dirs = w.dirs + 1;
        } else {
            w.files = w.files + 1;
        }
        if e.first == 0 {
            if e.dir {
                return Err(text2(here, ": a directory with no clusters"));
            }
            if e.size != 0 {
                let mut t = with_number(text2(here, ": ").as_str(), e.size);
                t.append(" bytes and no clusters");
                return Err(t);
            }
            return Ok(());
        }
        let cs = match self.chain(e.first) {
            Ok(cs) => cs,
            Err(x) => {
                let mut t = text2(here, ": ");
                t.append(x.as_str());
                return Err(t);
            },
        };
        let ghost ids = plan::numbers(cs@);
        assert(ids.len() == cs@.len());
        let ghost seen0 = w.seen@;
        match w.claim(&cs) {
            Some(c) => {
                let mut t = with_number(text2(here, ": cluster ").as_str(), c);
                t.append(" is claimed twice");
                return Err(t);
            },
            None => {},
        }
        proof {
            assert forall|k: int| 0 <= k < ids.len() implies 0 <= #[trigger] ids[k] < seen0.len() by {
                assert(ids[k] == cs@[k]);
            }
            claim_counts(seen0, ids, 0);
            trues_bounded(w.seen@, w.seen@.len());
            let k = m.cluster_size / 32;
            let a = w0.claimed;
            let n = cs@.len() as int;
            assert((a + n) * k == a * k + n * k) by (nonlinear_arith);
            assert(n * k >= 0) by (nonlinear_arith)
                requires
                    n >= 0,
                    k >= 0,
            ;
            assert(a + n <= u64::MAX) by {
                counts_fit(m, w.seen@, w.files as int, w.dirs as int, a + n, pending - 1);
            }
            if e.dir {
                cluster_bytes_len(m, ids, ids.len());
                let raw = cluster_bytes(m, ids, ids.len());
                listing_bounded(m.wide, raw, 0);
                let len = listing(m.wide, raw, 0).len();
                let size = m.cluster_size;
                assert(len <= n * k) by (nonlinear_arith)
                    requires
                        len * 32 <= n * size,
                        size == 32 * k,
                ;
            }
        }
        w.claimed = w.claimed + cs.len() as u64;
        if !e.dir {
            let size: u64 = self.cluster_size as u64;
            let least: u64 = (e.size as u64 + size - 1) / size;
            if (cs.len() as u64) < least {
                let mut t = with_number(text2(here, ": ").as_str(), cs.len() as u32);
                t.append(" clusters hold a ");
                t.append(text::int_text(e.size as i128).as_str());
                t.append("-byte file");
                return Err(t);
            }
        }
        Ok(())
    }

    fn walk(&self, dir: Option<u32>, path: &str, depth: usize, w: &mut Tally, Ghost(pending): Ghost<int>) -> (r: Result<
        (),
        String,
    >)
        requires
            fits(self@),
            pending >= 0,
            depth <= MAX_DEPTH + 1,
            bounded(
                self@,
                old(w)@.seen,
                old(w)@.files,
                old(w)@.dirs,
                old(w)@.claimed,
                pending + match entries(self@, opt(dir)) {
                    Ok(es) => es.len() as int,
                    Err(_) => 0,
                },
            ),
        ensures
            match r {
                Ok(_) => walked(self@, opt(dir), path@, depth as nat, old(w)@) == Ok::<Walk, Seq<char>>(final(w)@)
                    && bounded(
                    self@,
                    final(w)@.seen,
                    final(w)@.files,
                    final(w)@.dirs,
                    final(w)@.claimed,
                    pending,
                ),
                Err(m) => walked(self@, opt(dir), path@, depth as nat, old(w)@) == Err::<Walk, Seq<char>>(m@),
            },
        decreases MAX_DEPTH + 1 - depth,
    {
        if depth > MAX_DEPTH {
            return Err(text2(path, ": directories nested too deep"));
        }
        let ghost m = self@;
        let es = match self.entries(dir) {
            Ok(es) => es,
            Err(e) => return Err(e),
        };
        let ghost fs = named_views(es@);
        let ghost whole = walked(m, opt(dir), path@, depth as nat, w@);
        let mut i: usize = 0;
        while i < es.len()
            invariant
                m == self@,
                fits(m),
                depth <= MAX_DEPTH,
                pending >= 0,
                fs == named_views(es@),
                i <= es@.len(),
                whole == walked(m, opt(dir), path@, depth as nat, old(w)@),
                walked_from(m, fs, i as int, path@, depth as nat, w@) == whole,
                bounded(m, w@.seen, w@.files, w@.dirs, w@.claimed, pending + (es@.len() - i)),
            decreases es@.len() - i,
        {
            assert(fs[i as int] == es@[i as int]@);
            let mut here = text2(path, "/");
            here.append(es[i].name.as_str());
            match self.visit(&es[i], here.as_str(), w, Ghost(pending + (es@.len() - i))) {
                Ok(_) => {},
                Err(x) => return Err(x),
            }
            if es[i].dir {
                match self.walk(
                    Some(es[i].first),
                    here.as_str(),
                    depth + 1,
                    w,
                    Ghost(pending + (es@.len() - i - 1)),
                ) {
                    Ok(_) => {},
                    Err(x) => return Err(x),
                }
            }
            i += 1;
        }
        Ok(())
    }

    fn tables_differ(&self, cluster: u32, first: u32) -> (r: bool)
        requires
            fits(self@),
            cluster < self.clusters + 2,
            first == table(self@, 0, cluster as int),
        ensures
            r == differs(self@, cluster as int, 1),
    {
        let ghost m = self@;
        let mut copy: usize = 1;
        while copy < self.fats
            invariant
                m == self@,
                fits(m),
                cluster < self.clusters + 2,
                first == table(m, 0, cluster as int),
                1 <= copy <= self.fats,
                differs(m, cluster as int, 1) == differs(m, cluster as int, copy as int),
            decreases self.fats - copy,
        {
            if self.table(copy, cluster) != first {
                return true;
            }
            copy += 1;
        }
        false
    }

    /// Walk every directory and chain; what each chain claims, and what is lost, free, or told
    /// differently by the tables.
    pub fn survey(&self) -> (r: Result<(Tally, (u32, u32, u32)), String>)
        requires
            fits(self@),
        ensures
            match r {
                Ok((t, (lost, differ, free))) => surveyed(self@) == Ok::<Walk, Seq<char>>(t@) && rest(
                    self@,
                    t@.seen,
                    self@.clusters + 2,
                ) == (Rest { lost: lost as int, differ: differ as int, free: free as int }) && t.files + t.dirs
                    <= most_entries(self@) && t.claimed <= 2 * self@.clusters + 2,
                Err(m) => surveyed(self@) == Err::<Walk, Seq<char>>(m@),
            },
    {
        let ghost m = self@;
        let n: usize = self.seen_len();
        let mut seen: Vec<bool> = Vec::new();
        while seen.len() < n
            invariant
                seen@.len() <= n,
                forall|i: int| 0 <= i < seen@.len() ==> !#[trigger] seen@[i],
            decreases n - seen@.len(),
        {
            seen.push(false);
        }
        assert(seen@ =~= unclaimed(m));
        let mut t = Tally { seen, files: 0, dirs: 0, claimed: 0 };
        proof {
            trues_bounded(t.seen@, t.seen@.len());
        }
        if self.wide {
            let cs = match self.chain(self.root) {
                Ok(cs) => cs,
                Err(e) => return Err(e),
            };
            let ghost ids = plan::numbers(cs@);
            let ghost start = t.seen@;
            let mut i: usize = 0;
            while i < cs.len()
                invariant
                    ids == plan::numbers(cs@),
                    i <= cs@.len(),
                    t.files == 0,
                    t.dirs == 0,
                    t.claimed == 0,
                    t.seen@.len() == start.len(),
                    forall|k: int| 0 <= k < cs@.len() ==> #[trigger] cs@[k] < t.seen@.len(),
                    t.seen@ == marked(start, ids, i as nat),
                decreases cs@.len() - i,
            {
                assert(ids[i as int] == cs@[i as int]);
                t.seen[cs[i] as usize] = true;
                i += 1;
            }
            t.claimed = cs.len() as u64;
            proof {
                assert(ids.len() == cs@.len());
                trues_bounded(t.seen@, t.seen@.len());
                cluster_bytes_len(m, ids, ids.len());
                let raw = cluster_bytes(m, ids, ids.len());
                listing_bounded(m.wide, raw, 0);
                let len = listing(m.wide, raw, 0).len();
                let count = cs@.len() as int;
                let size = m.cluster_size;
                let k = size / 32;
                assert(len * 32 <= count * size);
                assert(len <= count * k) by (nonlinear_arith)
                    requires
                        len * 32 <= count * size,
                        size < 32 * k + 32,
                        size % 32 == 0,
                        k == size / 32,
                ;
            }
        } else {
            proof {
                let raw = m.bytes.subrange(m.root_start, m.root_start + m.root_entries * plan::ENTRY);
                listing_bounded(false, raw, 0);
                let k = m.cluster_size / 32;
                assert(0 * k == 0) by (nonlinear_arith);
            }
        }
        match self.walk(None, "", 0, &mut t, Ghost(0)) {
            Ok(_) => {},
            Err(e) => return Err(e),
        }
        proof {
            counts_fit(m, t@.seen, t@.files, t@.dirs, t@.claimed, 0);
        }
        let bad: u32 = if self.wide {
            0x0FFF_FFF7
        } else {
            0xFFF7
        };
        let mut lost: u32 = 0;
        let mut differ: u32 = 0;
        let mut free: u32 = 0;
        let mut c: u32 = 2;
        while c < self.clusters + 2
            invariant
                m == self@,
                fits(m),
                bad == bad_mark(self.wide),
                2 <= c <= self.clusters + 2,
                t.seen@.len() == m.clusters + 2,
                lost <= c,
                differ <= c,
                free <= c,
                rest(m, t.seen@, c as int) == (Rest { lost: lost as int, differ: differ as int, free: free as int }),
            decreases self.clusters + 2 - c,
        {
            let first: u32 = self.table(0, c);
            if first == 0 {
                free += 1;
            } else if first != bad && !t.seen[c as usize] {
                lost += 1;
            }
            if self.tables_differ(c, first) {
                differ += 1;
            }
            c += 1;
        }
        Ok((t, (lost, differ, free)))
    }

    fn seen_len(&self) -> (r: usize)
        requires
            fits(self@),
        ensures
            r == self.clusters + 2,
    {
        let ghost n = self.bytes.len();
        proof {
            cluster_inside(self@, 2);
            table_inside(self@, 0, self@.clusters + 1);
        }
        self.clusters as usize + 2
    }
}

} // verus!
