//! Byte strings: fixed-width integers at an offset, in either byte order, and the few
//! searches and edits the file formats need.

use vstd::prelude::*;
use vstd::slice::slice_subrange;

verus! {

/// The little-endian 16-bit number at `i`.
pub open spec fn le16(s: Seq<u8>, i: int) -> int {
    s[i] + 0x100 * s[i + 1]
}

/// The little-endian 32-bit number at `i`.
pub open spec fn le32(s: Seq<u8>, i: int) -> int {
    s[i] + 0x100 * s[i + 1] + 0x1_0000 * s[i + 2] + 0x100_0000 * s[i + 3]
}

/// The little-endian 64-bit number at `i`.
pub open spec fn le64(s: Seq<u8>, i: int) -> int {
    le32(s, i) + 0x1_0000_0000 * le32(s, i + 4)
}

/// The big-endian 16-bit number at `i`.
pub open spec fn be16(s: Seq<u8>, i: int) -> int {
    0x100 * s[i] + s[i + 1]
}

/// The big-endian 32-bit number at `i`.
pub open spec fn be32(s: Seq<u8>, i: int) -> int {
    0x100_0000 * s[i] + 0x1_0000 * s[i + 1] + 0x100 * s[i + 2] + s[i + 3]
}

/// The two bytes of `x`, low byte first.
pub open spec fn le16_bytes(x: int) -> Seq<u8> {
    seq![(x % 0x100) as u8, (x / 0x100 % 0x100) as u8]
}

/// The four bytes of `x`, low byte first.
pub open spec fn le32_bytes(x: int) -> Seq<u8> {
    seq![
        (x % 0x100) as u8,
        (x / 0x100 % 0x100) as u8,
        (x / 0x1_0000 % 0x100) as u8,
        (x / 0x100_0000 % 0x100) as u8,
    ]
}

/// The eight bytes of `x`, low byte first.
pub open spec fn le64_bytes(x: int) -> Seq<u8> {
    le32_bytes(x % 0x1_0000_0000) + le32_bytes(x / 0x1_0000_0000)
}

/// The two bytes of `x`, high byte first.
pub open spec fn be16_bytes(x: int) -> Seq<u8> {
    seq![(x / 0x100 % 0x100) as u8, (x % 0x100) as u8]
}

/// The four bytes of `x`, high byte first.
pub open spec fn be32_bytes(x: int) -> Seq<u8> {
    seq![
        (x / 0x100_0000 % 0x100) as u8,
        (x / 0x1_0000 % 0x100) as u8,
        (x / 0x100 % 0x100) as u8,
        (x % 0x100) as u8,
    ]
}

/// `s` with the bytes from `at` on replaced by `new`, as far as both reach.
pub open spec fn splice(s: Seq<u8>, at: int, new: Seq<u8>) -> Seq<u8> {
    Seq::new(s.len(), |i: int| if at <= i < at + new.len() { new[i - at] } else { s[i] })
}

/// `n` zero bytes.
pub open spec fn zeros(n: nat) -> Seq<u8> {
    Seq::new(n, |i: int| 0u8)
}

/// Whether `needle` stands at `i` in `hay`.
pub open spec fn stands_at<T>(hay: Seq<T>, i: int, needle: Seq<T>) -> bool {
    0 <= i && i + needle.len() <= hay.len() && hay.subrange(i, i + needle.len()) == needle
}

/// Whether `s` begins with `p`.
pub open spec fn begins<T>(s: Seq<T>, p: Seq<T>) -> bool {
    p.len() <= s.len() && s.subrange(0, p.len() as int) == p
}

/// Whether `s` ends with `p`.
pub open spec fn ends<T>(s: Seq<T>, p: Seq<T>) -> bool {
    p.len() <= s.len() && s.subrange(s.len() - p.len(), s.len() as int) == p
}

/// Where `needle` first stands in `hay`, from `i` on.
pub open spec fn find<T>(hay: Seq<T>, needle: Seq<T>, i: int) -> Option<int>
    decreases hay.len() - i,
{
    if i < 0 || i + needle.len() > hay.len() {
        None
    } else if stands_at(hay, i, needle) {
        Some(i)
    } else if i >= hay.len() {
        None
    } else {
        find(hay, needle, i + 1)
    }
}

/// Every place where `needle` stands in `hay`, from `i` on.
pub open spec fn places<T>(hay: Seq<T>, needle: Seq<T>, i: int) -> Seq<int>
    decreases hay.len() - i,
{
    if i < 0 || i >= hay.len() || i + needle.len() > hay.len() {
        seq![]
    } else if stands_at(hay, i, needle) {
        seq![i] + places(hay, needle, i + 1)
    } else {
        places(hay, needle, i + 1)
    }
}

/// Places as numbers without bounds.
pub open spec fn places_of(v: Seq<usize>) -> Seq<int> {
    v.map_values(|p: usize| p as int)
}

/// Reading back what was written: every fixed-width number survives its byte form.
pub proof fn le16_of_bytes(x: int)
    requires
        0 <= x < 0x1_0000,
    ensures
        le16(le16_bytes(x), 0) == x,
{
}

/// A 32-bit number survives its little-endian byte form.
pub proof fn le32_of_bytes(x: int)
    requires
        0 <= x < 0x1_0000_0000,
    ensures
        le32(le32_bytes(x), 0) == x,
{
}

/// A 16-bit number survives its big-endian byte form.
pub proof fn be16_of_bytes(x: int)
    requires
        0 <= x < 0x1_0000,
    ensures
        be16(be16_bytes(x), 0) == x,
{
}

/// A 32-bit number survives its big-endian byte form.
pub proof fn be32_of_bytes(x: int)
    requires
        0 <= x < 0x1_0000_0000,
    ensures
        be32(be32_bytes(x), 0) == x,
{
}

/// A 64-bit number survives its little-endian byte form.
pub proof fn le64_of_bytes(x: int)
    requires
        0 <= x < 0x1_0000_0000_0000_0000,
    ensures
        le64(le64_bytes(x), 0) == x,
{
    let (low, high) = (x % 0x1_0000_0000, x / 0x1_0000_0000);
    le32_of_bytes(low);
    le32_of_bytes(high);
    let b = le64_bytes(x);
    assert(le32(b, 0) == le32(le32_bytes(low), 0));
    assert(le32(b, 4) == le32(le32_bytes(high), 0));
}

/// Parts of one length that are followed by something are the same where the whole is.
pub(crate) proof fn parts_keep_apart<T>(a: Seq<T>, b: Seq<T>, r: Seq<T>, q: Seq<T>)
    requires
        a.len() == b.len(),
        a + r == b + q,
    ensures
        a == b,
        r == q,
{
    let (x, y) = (a + r, b + q);
    assert(a =~= x.subrange(0, a.len() as int));
    assert(b =~= y.subrange(0, b.len() as int));
    assert(r =~= x.subrange(a.len() as int, x.len() as int));
    assert(q =~= y.subrange(b.len() as int, y.len() as int));
}

/// Six parts joined from the left are the same joined from the right.
pub(crate) proof fn joined_from_the_right<T>(a: Seq<T>, b: Seq<T>, c: Seq<T>, d: Seq<T>, e: Seq<T>, r: Seq<T>)
    ensures
        a + b + c + d + e + r == a + (b + (c + (d + (e + r)))),
{
    assert(a + b + c + d + e + r =~= a + (b + (c + (d + (e + r)))));
}

/// A 32-bit number is never mistaken for another, whatever follows its bytes.
pub proof fn le32_keeps_apart(x: int, y: int, r: Seq<u8>, q: Seq<u8>)
    requires
        0 <= x < 0x1_0000_0000,
        0 <= y < 0x1_0000_0000,
        le32_bytes(x) + r == le32_bytes(y) + q,
    ensures
        x == y,
        r == q,
{
    parts_keep_apart(le32_bytes(x), le32_bytes(y), r, q);
    le32_of_bytes(x);
    le32_of_bytes(y);
}

/// A 64-bit number is never mistaken for another, whatever follows its bytes.
pub proof fn le64_keeps_apart(x: int, y: int, r: Seq<u8>, q: Seq<u8>)
    requires
        0 <= x < 0x1_0000_0000_0000_0000,
        0 <= y < 0x1_0000_0000_0000_0000,
        le64_bytes(x) + r == le64_bytes(y) + q,
    ensures
        x == y,
        r == q,
{
    let (low, high) = (x % 0x1_0000_0000, x / 0x1_0000_0000);
    let (low2, high2) = (y % 0x1_0000_0000, y / 0x1_0000_0000);
    assert(le64_bytes(x) + r =~= le32_bytes(low) + (le32_bytes(high) + r));
    assert(le64_bytes(y) + q =~= le32_bytes(low2) + (le32_bytes(high2) + q));
    le32_keeps_apart(low, low2, le32_bytes(high) + r, le32_bytes(high2) + q);
    le32_keeps_apart(high, high2, r, q);
}

pub fn get_le16(b: &[u8], i: usize) -> (r: u16)
    requires
        i + 2 <= b@.len(),
    ensures
        r == le16(b@, i as int),
{
    b[i] as u16 + 0x100 * (b[i + 1] as u16)
}

pub fn get_le32(b: &[u8], i: usize) -> (r: u32)
    requires
        i + 4 <= b@.len(),
    ensures
        r == le32(b@, i as int),
{
    b[i] as u32 + 0x100 * (b[i + 1] as u32) + 0x1_0000 * (b[i + 2] as u32) + 0x100_0000 * (b[i + 3] as u32)
}

pub fn get_le64(b: &[u8], i: usize) -> (r: u64)
    requires
        i + 8 <= b@.len(),
    ensures
        r == le64(b@, i as int),
{
    let ghost n = b.len();
    let low: u32 = get_le32(b, i);
    let high: u32 = get_le32(b, i + 4);
    low as u64 + 0x1_0000_0000 * (high as u64)
}

pub fn get_be16(b: &[u8], i: usize) -> (r: u16)
    requires
        i + 2 <= b@.len(),
    ensures
        r == be16(b@, i as int),
{
    0x100 * (b[i] as u16) + b[i + 1] as u16
}

pub fn get_be32(b: &[u8], i: usize) -> (r: u32)
    requires
        i + 4 <= b@.len(),
    ensures
        r == be32(b@, i as int),
{
    0x100_0000 * (b[i] as u32) + 0x1_0000 * (b[i + 1] as u32) + 0x100 * (b[i + 2] as u32) + b[i + 3] as u32
}

/// Append every byte of `s`.
pub fn push_all(v: &mut Vec<u8>, s: &[u8])
    ensures
        final(v)@ == old(v)@ + s@,
{
    v.extend_from_slice(s);
    assert(v@ =~= old(v)@ + s@);
}

pub fn push_le16(v: &mut Vec<u8>, x: u16)
    ensures
        final(v)@ == old(v)@ + le16_bytes(x as int),
{
    v.push((x % 0x100) as u8);
    v.push((x / 0x100 % 0x100) as u8);
    assert(v@ =~= old(v)@ + le16_bytes(x as int));
}

pub fn push_le32(v: &mut Vec<u8>, x: u32)
    ensures
        final(v)@ == old(v)@ + le32_bytes(x as int),
{
    v.push((x % 0x100) as u8);
    v.push((x / 0x100 % 0x100) as u8);
    v.push((x / 0x1_0000 % 0x100) as u8);
    v.push((x / 0x100_0000 % 0x100) as u8);
    assert(v@ =~= old(v)@ + le32_bytes(x as int));
}

pub fn push_le64(v: &mut Vec<u8>, x: u64)
    ensures
        final(v)@ == old(v)@ + le64_bytes(x as int),
{
    push_le32(v, (x % 0x1_0000_0000) as u32);
    push_le32(v, (x / 0x1_0000_0000) as u32);
    assert(v@ =~= old(v)@ + le64_bytes(x as int));
}

pub fn push_be16(v: &mut Vec<u8>, x: u16)
    ensures
        final(v)@ == old(v)@ + be16_bytes(x as int),
{
    v.push((x / 0x100 % 0x100) as u8);
    v.push((x % 0x100) as u8);
    assert(v@ =~= old(v)@ + be16_bytes(x as int));
}

pub fn push_be32(v: &mut Vec<u8>, x: u32)
    ensures
        final(v)@ == old(v)@ + be32_bytes(x as int),
{
    v.push((x / 0x100_0000 % 0x100) as u8);
    v.push((x / 0x1_0000 % 0x100) as u8);
    v.push((x / 0x100 % 0x100) as u8);
    v.push((x % 0x100) as u8);
    assert(v@ =~= old(v)@ + be32_bytes(x as int));
}

/// Overwrite the bytes from `at` on with `src`.
pub fn copy_at(v: &mut Vec<u8>, at: usize, src: &[u8])
    requires
        at + src@.len() <= old(v)@.len(),
    ensures
        final(v)@ == splice(old(v)@, at as int, src@),
{
    let mut i: usize = 0;
    while i < src.len()
        invariant
            i <= src@.len(),
            at + src@.len() <= v@.len(),
            v@.len() == old(v)@.len(),
            v@ =~= splice(old(v)@, at as int, src@.subrange(0, i as int)),
        decreases src@.len() - i,
    {
        let ghost n = v.len();
        v.set(at + i, src[i]);
        i += 1;
    }
    assert(src@.subrange(0, i as int) =~= src@);
}

pub fn put_le16(v: &mut Vec<u8>, at: usize, x: u16)
    requires
        at + 2 <= old(v)@.len(),
    ensures
        final(v)@ == splice(old(v)@, at as int, le16_bytes(x as int)),
{
    let ghost n = v.len();
    v.set(at, (x % 0x100) as u8);
    v.set(at + 1, (x / 0x100 % 0x100) as u8);
    assert(v@ =~= splice(old(v)@, at as int, le16_bytes(x as int)));
}

pub fn put_le32(v: &mut Vec<u8>, at: usize, x: u32)
    requires
        at + 4 <= old(v)@.len(),
    ensures
        final(v)@ == splice(old(v)@, at as int, le32_bytes(x as int)),
{
    let ghost n = v.len();
    v.set(at, (x % 0x100) as u8);
    v.set(at + 1, (x / 0x100 % 0x100) as u8);
    v.set(at + 2, (x / 0x1_0000 % 0x100) as u8);
    v.set(at + 3, (x / 0x100_0000 % 0x100) as u8);
    assert(v@ =~= splice(old(v)@, at as int, le32_bytes(x as int)));
}

pub fn put_be16(v: &mut Vec<u8>, at: usize, x: u16)
    requires
        at + 2 <= old(v)@.len(),
    ensures
        final(v)@ == splice(old(v)@, at as int, be16_bytes(x as int)),
{
    let ghost n = v.len();
    v.set(at, (x / 0x100 % 0x100) as u8);
    v.set(at + 1, (x % 0x100) as u8);
    assert(v@ =~= splice(old(v)@, at as int, be16_bytes(x as int)));
}

pub fn put_be32(v: &mut Vec<u8>, at: usize, x: u32)
    requires
        at + 4 <= old(v)@.len(),
    ensures
        final(v)@ == splice(old(v)@, at as int, be32_bytes(x as int)),
{
    let ghost n = v.len();
    v.set(at, (x / 0x100_0000 % 0x100) as u8);
    v.set(at + 1, (x / 0x1_0000 % 0x100) as u8);
    v.set(at + 2, (x / 0x100 % 0x100) as u8);
    v.set(at + 3, (x % 0x100) as u8);
    assert(v@ =~= splice(old(v)@, at as int, be32_bytes(x as int)));
}

/// A vector of `n` zero bytes.
pub fn zeroed(n: usize) -> (r: Vec<u8>)
    ensures
        r@ == zeros(n as nat),
{
    let r: Vec<u8> = vec![0u8; n];
    assert(r@ =~= zeros(n as nat));
    r
}

/// The bytes from `i` up to `j`, copied.
pub fn copied(b: &[u8], i: usize, j: usize) -> (r: Vec<u8>)
    requires
        i <= j <= b@.len(),
    ensures
        r@ == b@.subrange(i as int, j as int),
{
    let mut r: Vec<u8> = Vec::new();
    push_all(&mut r, slice_subrange(b, i, j));
    assert(r@ =~= b@.subrange(i as int, j as int));
    r
}

/// Whether two byte strings are the same.
pub fn same_bytes(a: &[u8], b: &[u8]) -> (r: bool)
    ensures
        r == (a@ == b@),
{
    if a.len() != b.len() {
        return false;
    }
    let mut i: usize = 0;
    while i < a.len()
        invariant
            i <= a@.len(),
            a@.len() == b@.len(),
            forall|k: int| 0 <= k < i ==> a@[k] == b@[k],
        decreases a@.len() - i,
    {
        if a[i] != b[i] {
            assert(a@[i as int] != b@[i as int]);
            return false;
        }
        i += 1;
    }
    assert(a@ =~= b@);
    true
}

/// Whether `needle` stands at `i` in `hay`.
pub fn bytes_at(hay: &[u8], i: usize, needle: &[u8]) -> (r: bool)
    ensures
        r == stands_at(hay@, i as int, needle@),
{
    if needle.len() > hay.len() || i > hay.len() - needle.len() {
        return false;
    }
    same_bytes(slice_subrange(hay, i, i + needle.len()), needle)
}

/// Where `needle` first stands in `hay`, from `i` on.
pub fn find_bytes(hay: &[u8], needle: &[u8], i: usize) -> (r: Option<usize>)
    ensures
        match r {
            Some(at) => find(hay@, needle@, i as int) == Some(at as int) && i <= at && at + needle@.len() <= hay@.len(),
            None => find(hay@, needle@, i as int) == None::<int>,
        },
{
    if needle.len() > hay.len() {
        return None;
    }
    let last: usize = hay.len() - needle.len();
    let mut k: usize = i;
    while k <= last
        invariant
            needle@.len() + last == hay@.len(),
            i <= k,
            find(hay@, needle@, k as int) == find(hay@, needle@, i as int),
        decreases last + 1 - k,
    {
        if bytes_at(hay, k, needle) {
            return Some(k);
        }
        if k == hay.len() {
            return None;
        }
        k += 1;
    }
    None
}

/// Every place where `needle` stands in `hay`.
pub fn all_places(hay: &[u8], needle: &[u8]) -> (r: Vec<usize>)
    ensures
        places_of(r@) == places(hay@, needle@, 0),
        forall|k: int| 0 <= k < r@.len() ==> #[trigger] r@[k] + needle@.len() <= hay@.len(),
{
    let mut r: Vec<usize> = Vec::new();
    let mut i: usize = 0;
    assert(places_of(r@) + places(hay@, needle@, 0) =~= places(hay@, needle@, 0));
    while i < hay.len() && needle.len() <= hay.len() - i
        invariant
            i <= hay@.len(),
            places_of(r@) + places(hay@, needle@, i as int) == places(hay@, needle@, 0),
            forall|k: int| 0 <= k < r@.len() ==> #[trigger] r@[k] + needle@.len() <= hay@.len(),
        decreases hay@.len() - i,
    {
        if bytes_at(hay, i, needle) {
            let ghost before = places_of(r@);
            let ghost rest = places(hay@, needle@, i + 1);
            r.push(i);
            assert(places_of(r@) =~= before.push(i as int));
            assert(before + (seq![i as int] + rest) =~= before.push(i as int) + rest);
        }
        i += 1;
    }
    assert(places_of(r@) + Seq::<int>::empty() =~= places_of(r@));
    r
}

/// Whether `s` begins with `p`.
pub fn starts_with(s: &[u8], p: &[u8]) -> (r: bool)
    ensures
        r == begins(s@, p@),
{
    bytes_at(s, 0, p)
}

/// Whether `s` ends with `p`.
pub fn ends_with(s: &[u8], p: &[u8]) -> (r: bool)
    ensures
        r == ends(s@, p@),
{
    if p.len() > s.len() {
        return false;
    }
    bytes_at(s, s.len() - p.len(), p)
}

/// What follows `p` in `s`, if `s` begins with it.
pub fn strip_prefix(s: &[u8], p: &[u8]) -> (r: Option<Vec<u8>>)
    ensures
        r is Some <==> begins(s@, p@),
        r is Some ==> r->Some_0@ == s@.subrange(p@.len() as int, s@.len() as int),
{
    if starts_with(s, p) {
        Some(copied(s, p.len(), s.len()))
    } else {
        None
    }
}

} // verus!
