//! What the host and the guest say to each other in the kernel's network check: the messages, and
//! the frames that carry them.
//!
//! The kernel's own sources hold the same messages, and each end compares what arrives with them
//! byte by byte.

use std::collections::{HashMap, HashSet};

use vstd::prelude::*;
use vstd::slice::slice_subrange;

use crate::bytes;

verus! {

/// The guest port that the kernel's network check listens on.
pub const NET_GUEST_PORT: u16 = 5555;

/// The guest port on which the guest's own server listens.
pub const NET_GUEST_TCP_PORT: u16 = 7777;

/// The length of the pattern behind [`NET_UDP_FRAGMENTED`], which the guest checks byte for byte.
pub const NET_FRAGMENT_PATTERN: usize = 64;

/// What the host sends the guest to be answered: `kintane-udp-probe`.
pub const NET_PROBE: [u8; 17] = [107u8, 105, 110, 116, 97, 110, 101, 45, 117, 100, 112, 45, 112, 114, 111, 98, 101];

/// What the guest answers a probe with, before its number: `kintane-udp-echo `.
pub const NET_ECHO: [u8; 17] = [107u8, 105, 110, 116, 97, 110, 101, 45, 117, 100, 112, 45, 101, 99, 104, 111, 32];

/// What an echo earns, before the echo's number: `kintane-udp-ack `.
pub const NET_ACK: [u8; 16] = [107u8, 105, 110, 116, 97, 110, 101, 45, 117, 100, 112, 45, 97, 99, 107, 32];

/// What marks the datagram that reaches the guest as two IPv4 fragments: `kintane-udp-fragmented `.
pub const NET_UDP_FRAGMENTED: [u8; 23] = [107u8, 105, 110, 116, 97, 110, 101, 45, 117, 100, 112, 45, 102, 114, 97, 103, 109, 101, 110, 116, 101, 100, 32];

/// What tells the guest the port of the TCP service: `kintane-tcp-port `.
pub const NET_TCP_ANNOUNCE: [u8; 17] = [107u8, 105, 110, 116, 97, 110, 101, 45, 116, 99, 112, 45, 112, 111, 114, 116, 32];

/// What a request to the TCP service begins with: `kintane-tcp-request `.
pub const NET_TCP_REQUEST: [u8; 20] = [107u8, 105, 110, 116, 97, 110, 101, 45, 116, 99, 112, 45, 114, 101, 113, 117, 101, 115, 116, 32];

/// What the TCP service's reply begins with: `kintane-tcp-reply `.
pub const NET_TCP_REPLY: [u8; 18] = [107u8, 105, 110, 116, 97, 110, 101, 45, 116, 99, 112, 45, 114, 101, 112, 108, 121, 32];

/// What the guest says once a listener is up, before a number: `kintane-tcp-listening `.
pub const NET_TCP_LISTENING: [u8; 22] = [107u8, 105, 110, 116, 97, 110, 101, 45, 116, 99, 112, 45, 108, 105, 115, 116, 101, 110, 105, 110, 103, 32];

/// What the host says on a connection into the guest, before the listener's number: `kintane-tcp-inbound `.
pub const NET_TCP_INBOUND: [u8; 20] = [107u8, 105, 110, 116, 97, 110, 101, 45, 116, 99, 112, 45, 105, 110, 98, 111, 117, 110, 100, 32];

/// What the guest must answer with: `kintane-tcp-inbound-reply `.
pub const NET_TCP_INBOUND_REPLY: [u8; 26] = [107u8, 105, 110, 116, 97, 110, 101, 45, 116, 99, 112, 45, 105, 110, 98, 111, 117, 110, 100, 45, 114, 101, 112, 108, 121, 32];

/// The verdict on the right answer: `kintane-tcp-inbound-verified `.
pub const NET_TCP_INBOUND_VERIFIED: [u8; 29] = [107u8, 105, 110, 116, 97, 110, 101, 45, 116, 99, 112, 45, 105, 110, 98, 111, 117, 110, 100, 45, 118, 101, 114, 105, 102, 105, 101, 100, 32];

/// The verdict on any other: `kintane-tcp-inbound-wrong `.
pub const NET_TCP_INBOUND_WRONG: [u8; 26] = [107u8, 105, 110, 116, 97, 110, 101, 45, 116, 99, 112, 45, 105, 110, 98, 111, 117, 110, 100, 45, 119, 114, 111, 110, 103, 32];

/// What tells the guest the port of the datagram service: `kintane-udp-port `.
pub const NET_UDP_ANNOUNCE: [u8; 17] = [107u8, 105, 110, 116, 97, 110, 101, 45, 117, 100, 112, 45, 112, 111, 114, 116, 32];

/// What tells the guest the port on which nothing answers: `kintane-udp-quiet `.
pub const NET_UDP_QUIET: [u8; 18] = [107u8, 105, 110, 116, 97, 110, 101, 45, 117, 100, 112, 45, 113, 117, 105, 101, 116, 32];

/// What a request to the datagram service begins with: `kintane-udp-request `.
pub const NET_UDP_REQUEST: [u8; 20] = [107u8, 105, 110, 116, 97, 110, 101, 45, 117, 100, 112, 45, 114, 101, 113, 117, 101, 115, 116, 32];

/// What the datagram service's reply begins with: `kintane-udp-reply `.
pub const NET_UDP_REPLY: [u8; 18] = [107u8, 105, 110, 116, 97, 110, 101, 45, 117, 100, 112, 45, 114, 101, 112, 108, 121, 32];

/// What a request begins with, behind its prefix, when the service is to close first: `peer-closes `.
pub const PEER_CLOSES: [u8; 12] = [112u8, 101, 101, 114, 45, 99, 108, 111, 115, 101, 115, 32];

/// The sum of a byte string's big-endian 16-bit words from `i` on, the last byte of an odd one
/// standing in the high half of a word of its own.
pub open spec fn word_sum(b: Seq<u8>, i: int) -> int
    decreases b.len() - i,
{
    if i >= b.len() {
        0
    } else if i + 1 == b.len() {
        0x100 * b[i]
    } else {
        bytes::be16(b, i) + word_sum(b, i + 2)
    }
}

/// A sum with every carry out of its 16 bits added back in: one's-complement addition.
pub open spec fn wrapped(n: int) -> int {
    if n <= 0 {
        0
    } else {
        (n - 1) % 0xffff + 1
    }
}

/// The Internet checksum of a byte string: the complement of its one's-complement sum.
pub open spec fn checksum(b: Seq<u8>) -> int {
    0xffff - wrapped(word_sum(b, 0))
}

proof fn sums_wrap(a: int, w: int)
    requires
        0 <= a,
        0 <= w,
    ensures
        wrapped(wrapped(a) + w) == wrapped(a + w),
{
    if a > 0 {
        let k = (a - 1) / 0xffff;
        assert(a + w - 1 == 0xffff * k + (wrapped(a) + w - 1));
        vstd::arithmetic::div_mod::lemma_mod_multiples_vanish(k, wrapped(a) + w - 1, 0xffff);
    }
}

proof fn sum_grows(b: Seq<u8>, i: int)
    ensures
        word_sum(b, i) >= 0 || i < 0,
    decreases b.len() - i,
{
    if 0 <= i && i + 1 < b.len() {
        sum_grows(b, i + 2);
    }
}

/// The sum of the words before `i`, and that of the rest.
proof fn sum_splits(b: Seq<u8>, front: Seq<u8>, i: int, j: int)
    requires
        0 <= i <= j <= b.len(),
        (j - i) % 2 == 0,
        front == b.subrange(0, j),
    ensures
        word_sum(b, i) == word_sum(front, i) + word_sum(b, j),
    decreases j - i,
{
    if i < j {
        assert(i + 2 <= j);
        sum_splits(b, front, i + 2, j);
    }
}

/// The Internet checksum of a byte string.
pub fn ipv4_checksum(header: &[u8]) -> (r: u16)
    ensures
        r == checksum(header@),
{
    let ghost n = header.len();
    let mut sum: u32 = 0;
    let mut i: usize = 0;
    while i < header.len()
        invariant
            i <= header@.len() == n,
            i % 2 == 0 || i == n,
            sum <= 0xffff,
            sum == wrapped(word_sum(header@.subrange(0, i as int), 0)),
        decreases header@.len() - i,
    {
        let ghost before = header@.subrange(0, i as int);
        let high: u32 = header[i] as u32;
        let (word, next): (u32, usize) = if header.len() - i > 1 {
            (high * 0x100 + header[i + 1] as u32, i + 2)
        } else {
            (high * 0x100, i + 1)
        };
        proof {
            let after = header@.subrange(0, next as int);
            assert(after.subrange(0, i as int) =~= before);
            sum_splits(after, before, 0, i as int);
            assert(word_sum(after, i as int) == word) by {
                reveal_with_fuel(word_sum, 2);
            }
            sum_grows(before, 0);
            sums_wrap(word_sum(before, 0), word as int);
        }
        sum = sum + word;
        if sum > 0xffff {
            sum = sum - 0xffff;
        }
        i = next;
    }
    assert(header@.subrange(0, i as int) =~= header@);
    0xffff - sum as u16
}

/// Writing a number over two zero bytes adds it to the sum.
proof fn sum_of_spliced(b: Seq<u8>, i: int, at: int, x: int)
    requires
        0 <= i <= at,
        (at - i) % 2 == 0,
        at + 2 <= b.len(),
        b[at] == 0,
        b[at + 1] == 0,
        0 <= x <= 0xffff,
    ensures
        word_sum(bytes::splice(b, at, bytes::be16_bytes(x)), i) == word_sum(b, i) + x,
    decreases at - i,
{
    let s = bytes::splice(b, at, bytes::be16_bytes(x));
    if i == at {
        sums_agree(b, s, at + 2);
    } else {
        sum_of_spliced(b, i + 2, at, x);
    }
}

proof fn sums_agree(a: Seq<u8>, b: Seq<u8>, i: int)
    requires
        0 <= i,
        a.len() == b.len(),
        forall|k: int| i <= k < a.len() ==> #[trigger] a[k] == b[k],
    ensures
        word_sum(a, i) == word_sum(b, i),
    decreases a.len() - i,
{
    if i + 1 < a.len() {
        sums_agree(a, b, i + 2);
    }
}

/// Bytes that carry their own checksum, in a word that was zero when it was computed, sum to a
/// checksum of zero: what every receiver checks.
pub proof fn checksums_verify(b: Seq<u8>, at: int)
    requires
        0 <= at,
        at % 2 == 0,
        at + 2 <= b.len(),
        b[at] == 0,
        b[at + 1] == 0,
    ensures
        checksum(bytes::splice(b, at, bytes::be16_bytes(checksum(b)))) == 0,
{
    let w = word_sum(b, 0);
    let x = checksum(b);
    sum_grows(b, 0);
    sum_of_spliced(b, 0, at, x);
    if w > 0 {
        let k = (w - 1) / 0xffff;
        assert(w + x - 1 == 0xffff * k + 0xfffe);
        vstd::arithmetic::div_mod::lemma_mod_multiples_vanish(k, 0xfffe, 0xffff);
    }
}

/// All ones in a checksum's word stand for the checksum zero: one's-complement arithmetic has two
/// zeros.
pub proof fn all_ones_verify(b: Seq<u8>, at: int)
    requires
        0 <= at,
        at % 2 == 0,
        at + 2 <= b.len(),
        b[at] == 0,
        b[at + 1] == 0,
        checksum(b) == 0,
    ensures
        checksum(bytes::splice(b, at, bytes::be16_bytes(0xffff))) == 0,
{
    let w = word_sum(b, 0);
    sum_grows(b, 0);
    sum_of_spliced(b, 0, at, 0xffff);
    vstd::arithmetic::div_mod::lemma_mod_add_multiples_vanish(w - 1, 0xffff);
}

/// The header length and the total length of the IPv4 packet that a frame carries whole, and that
/// is not itself a fragment.
pub open spec fn packet(f: Seq<u8>) -> Option<(int, int)> {
    let ihl = f[14] % 16 * 4;
    let total = bytes::be16(f, 16);
    if f.len() >= 22 && f[12] == 8 && f[13] == 0 && ihl >= 20 && total > ihl && f.len() >= 14 + total
        && bytes::be16(f, 20) % 0x4000 == 0 {
        Some((ihl, total))
    } else {
        None
    }
}

/// An IPv4 packet's header length and total length, for a frame that carries one whole.
pub fn ipv4_header(frame: &[u8]) -> (r: Option<(usize, usize)>)
    ensures
        match r {
            Some(p) => packet(frame@) == Some((p.0 as int, p.1 as int)) && 20 <= p.0 <= 60 && p.0 < p.1 <= 0xffff
                && 14 + p.1 <= frame@.len(),
            None => packet(frame@) == None::<(int, int)>,
        },
{
    if frame.len() < 22 || frame[12] != 8 || frame[13] != 0 {
        return None;
    }
    let ihl: usize = (frame[14] % 16) as usize * 4;
    let total: usize = bytes::get_be16(frame, 16) as usize;
    let flags: u16 = bytes::get_be16(frame, 20);
    if ihl >= 20 && total > ihl && frame.len() >= 14 + total && flags % 0x4000 == 0 {
        Some((ihl, total))
    } else {
        None
    }
}

/// A frame with the checksum of its IPv4 header, which ends at `end`, written into it.
pub open spec fn summed(f: Seq<u8>, end: int) -> Seq<u8> {
    let zeroed = bytes::splice(f, 24, bytes::zeros(2));
    bytes::splice(zeroed, 24, bytes::be16_bytes(checksum(zeroed.subrange(14, end))))
}

/// Write the checksum of a frame's IPv4 header, which ends at `end`, into it.
pub fn put_header_sum(f: &mut Vec<u8>, end: usize)
    requires
        34 <= end <= old(f)@.len(),
    ensures
        final(f)@ == summed(old(f)@, end as int),
{
    let zero = bytes::zeroed(2);
    bytes::copy_at(f, 24, zero.as_slice());
    let sum: u16 = ipv4_checksum(slice_subrange(f.as_slice(), 14, end));
    bytes::put_be16(f, 24, sum);
}

/// One fragment of a frame's packet: its header, with a length, a place and a checksum of its own,
/// and a part of its payload.
pub open spec fn fragment(f: Seq<u8>, ihl: int, at: int, part: Seq<u8>, more: bool) -> Seq<u8> {
    let flags = (if more {
        0x2000int
    } else {
        0
    }) + at / 8;
    let g = f.subrange(0, 14 + ihl) + part;
    let g = bytes::splice(g, 16, bytes::be16_bytes(ihl + part.len()));
    let g = bytes::splice(g, 20, bytes::be16_bytes(flags));
    summed(g, 14 + ihl)
}

/// Where a packet's payload is cut: near its middle, after a whole number of eight-byte units,
/// which is what a fragment's offset counts.
pub open spec fn fragment_cut(len: int) -> int {
    len / 16 * 8
}

/// A frame's packet as two fragments, where its payload has two units of eight bytes.
pub open spec fn fragments(f: Seq<u8>) -> Option<Seq<Seq<u8>>> {
    match packet(f) {
        None => None,
        Some((ihl, total)) => {
            let payload = f.subrange(14 + ihl, 14 + total);
            let cut = fragment_cut(payload.len() as int);
            if payload.len() < 16 {
                None
            } else {
                Some(
                    seq![
                        fragment(f, ihl, 0, payload.subrange(0, cut), true),
                        fragment(f, ihl, cut, payload.subrange(cut, payload.len() as int), false),
                    ],
                )
            }
        },
    }
}

/// Frames as plain byte strings.
pub open spec fn frames(v: Seq<Vec<u8>>) -> Seq<Seq<u8>> {
    v.map_values(|f: Vec<u8>| f@)
}

fn make_fragment(frame: &[u8], ihl: usize, at: usize, part: &[u8], more: bool) -> (r: Vec<u8>)
    requires
        20 <= ihl <= 60,
        14 + ihl <= frame@.len(),
        ihl + part@.len() <= 0xffff,
        at <= 0xffff,
    ensures
        r@ == fragment(frame@, ihl as int, at as int, part@, more),
{
    let mut f = bytes::copied(frame, 0, 14 + ihl);
    bytes::push_all(&mut f, part);
    bytes::put_be16(&mut f, 16, (ihl + part.len()) as u16);
    let more_bit: u16 = if more {
        0x2000
    } else {
        0
    };
    bytes::put_be16(&mut f, 20, more_bit + (at / 8) as u16);
    put_header_sum(&mut f, 14 + ihl);
    f
}

/// A frame's datagram as two IPv4 fragments, split at an eight-byte boundary, each with its own
/// header checksum.
pub fn fragment_datagram(frame: &[u8]) -> (r: Option<Vec<Vec<u8>>>)
    ensures
        match r {
            Some(v) => fragments(frame@) == Some(frames(v@)),
            None => fragments(frame@) == None::<Seq<Seq<u8>>>,
        },
{
    let (ihl, total) = match ipv4_header(frame) {
        Some(p) => p,
        None => return None,
    };
    let payload = slice_subrange(frame, 14 + ihl, 14 + total);
    if payload.len() < 16 {
        return None;
    }
    let cut: usize = payload.len() / 16 * 8;
    let mut out: Vec<Vec<u8>> = Vec::new();
    out.push(make_fragment(frame, ihl, 0, slice_subrange(payload, 0, cut), true));
    out.push(make_fragment(frame, ihl, cut, slice_subrange(payload, cut, payload.len()), false));
    assert(frames(out@) =~= fragments(frame@)->Some_0);
    Some(out)
}

/// What a frame's packet carries behind its header, by the length that the header gives.
pub open spec fn carried(f: Seq<u8>) -> Seq<u8> {
    f.subrange(14 + f[14] % 16 * 4, 14 + bytes::be16(f, 16))
}

/// Where in its datagram a fragment belongs, in bytes.
pub open spec fn fragment_place(f: Seq<u8>) -> int {
    bytes::be16(f, 20) % 0x2000 * 8
}

/// Whether a fragment says that more follow.
pub open spec fn more_follow(f: Seq<u8>) -> bool {
    bytes::be16(f, 20) / 0x2000 % 2 == 1
}

proof fn fragments_say(f: Seq<u8>, ihl: int, total: int, at: int, part: Seq<u8>, more: bool)
    requires
        packet(f) == Some((ihl, total)),
        0 <= at <= 0xffff,
        at % 8 == 0,
        ihl + part.len() <= total,
    ensures
        ({
            let g = fragment(f, ihl, at, part, more);
            &&& g.len() == 14 + bytes::be16(g, 16)
            &&& carried(g) == part
            &&& fragment_place(g) == at
            &&& more_follow(g) == more
            &&& checksum(g.subrange(14, 14 + ihl)) == 0
            &&& g[14] == f[14]
        }),
{
    let flags = (if more {
        0x2000int
    } else {
        0
    }) + at / 8;
    let g0 = f.subrange(0, 14 + ihl) + part;
    let g1 = bytes::splice(g0, 16, bytes::be16_bytes(ihl + part.len()));
    let g2 = bytes::splice(g1, 20, bytes::be16_bytes(flags));
    let z = bytes::splice(g2, 24, bytes::zeros(2));
    let g = fragment(f, ihl, at, part, more);
    let head = z.subrange(14, 14 + ihl);
    checksums_verify(head, 10);
    assert(g.subrange(14, 14 + ihl) =~= bytes::splice(head, 10, bytes::be16_bytes(checksum(head))));
    bytes::be16_of_bytes(ihl + part.len());
    bytes::be16_of_bytes(flags);
    assert(bytes::be16(g, 16) == bytes::be16(bytes::be16_bytes(ihl + part.len()), 0));
    assert(bytes::be16(g, 20) == bytes::be16(bytes::be16_bytes(flags), 0));
    assert(carried(g) =~= part);
}

/// The two fragments of a datagram carry the whole of it: put back together, their payloads are
/// the payload that was cut, the second says where it belongs and the first says that more follows,
/// and both carry headers that verify.
pub proof fn fragments_rejoin(f: Seq<u8>)
    requires
        fragments(f) is Some,
    ensures
        ({
            let (a, b) = (fragments(f)->Some_0[0], fragments(f)->Some_0[1]);
            let ihl = packet(f)->Some_0.0;
            &&& fragments(f)->Some_0.len() == 2
            &&& carried(a) + carried(b) == carried(f)
            &&& fragment_place(a) == 0 && fragment_place(b) == carried(a).len()
            &&& more_follow(a) && !more_follow(b)
            &&& checksum(a.subrange(14, 14 + ihl)) == 0 && checksum(b.subrange(14, 14 + ihl)) == 0
            &&& a.subrange(18, 20) == f.subrange(18, 20) && b.subrange(18, 20) == f.subrange(18, 20)
        }),
{
    let (ihl, total) = packet(f)->Some_0;
    let payload = f.subrange(14 + ihl, 14 + total);
    let cut = fragment_cut(payload.len() as int);
    let (p, q) = (payload.subrange(0, cut), payload.subrange(cut, payload.len() as int));
    fragments_say(f, ihl, total, 0, p, true);
    fragments_say(f, ihl, total, cut, q, false);
    assert(p + q =~= payload);
    let (a, b) = (fragments(f)->Some_0[0], fragments(f)->Some_0[1]);
    assert(a.subrange(18, 20) =~= f.subrange(18, 20));
    assert(b.subrange(18, 20) =~= f.subrange(18, 20));
}

/// The bytes a segment's checksum is computed over: the IPv4 pseudo-header, and the segment with
/// the field itself taken as zero.
pub open spec fn segment_summed(f: Seq<u8>, ihl: int) -> Seq<u8> {
    let segment = f.subrange(14 + ihl, f.len() as int);
    f.subrange(26, 34) + seq![0u8, 6u8] + bytes::be16_bytes(segment.len() as int) + bytes::splice(
        segment,
        16,
        bytes::zeros(2),
    )
}

/// Only the low 16 bits of a number show in its two bytes.
pub(crate) proof fn short_bytes(x: int)
    requires
        0 <= x,
    ensures
        bytes::be16_bytes(x % 0x1_0000) == bytes::be16_bytes(x),
{
    assert(x % 0x1_0000 / 0x100 % 0x100 == x / 0x100 % 0x100);
    assert(x % 0x1_0000 % 0x100 == x % 0x100);
}

/// A segment's checksum over the IPv4 pseudo-header, with the field itself taken as zero.
pub fn tcp_checksum(frame: &[u8], ihl: usize) -> (r: u16)
    requires
        20 <= ihl,
        14 + ihl + 18 <= frame@.len(),
    ensures
        r == checksum(segment_summed(frame@, ihl as int)),
{
    let ghost n = frame.len();
    let tcp: usize = 14 + ihl;
    let len: usize = frame.len() - tcp;
    let mut segment = bytes::copied(frame, tcp, frame.len());
    let zero = bytes::zeroed(2);
    bytes::copy_at(&mut segment, 16, zero.as_slice());
    let mut all = bytes::copied(frame, 26, 34);
    let ghost front = all@;
    all.push(0);
    all.push(6);
    assert(all@ =~= front + seq![0u8, 6u8]);
    proof {
        short_bytes(len as int);
    }
    bytes::push_be16(&mut all, (len % 0x1_0000) as u16);
    bytes::push_all(&mut all, segment.as_slice());
    ipv4_checksum(all.as_slice())
}

/// One half of a data segment: the headers, with a length, a sequence number and checksums of its
/// own, and a part of its data.
#[verifier::opaque]
pub open spec fn half(f: Seq<u8>, ihl: int, offset: int, at: int, part: Seq<u8>) -> Seq<u8> {
    let tcp = 14 + ihl;
    let g = f.subrange(0, tcp + offset) + part;
    let g = bytes::splice(g, 16, bytes::be16_bytes(ihl + offset + part.len()));
    let g = summed(g, tcp);
    let g = bytes::splice(g, tcp + 4, bytes::be32_bytes((bytes::be32(f, tcp + 4) + at) % 0x1_0000_0000));
    bytes::splice(g, tcp + 16, bytes::be16_bytes(checksum(segment_summed(g, ihl))))
}

/// The length of the TCP header in a frame's packet, whose own header is `ihl` bytes long.
pub open spec fn tcp_header(f: Seq<u8>, ihl: int) -> int {
    f[14 + ihl + 12] / 16 * 4
}

/// One data segment as two, the second half first and the first half twice: what a guest sees when
/// the network reorders and duplicates.
pub open spec fn reversed(f: Seq<u8>) -> Option<Seq<Seq<u8>>> {
    match packet(f) {
        None => None,
        Some((ihl, total)) => {
            let tcp = 14 + ihl;
            let offset = tcp_header(f, ihl);
            if tcp + 12 >= f.len() || offset < 20 || total < ihl + offset + 2 {
                None
            } else {
                let payload = f.subrange(tcp + offset, 14 + total);
                let cut = payload.len() as int / 2;
                let first = half(f, ihl, offset, 0, payload.subrange(0, cut));
                let second = half(f, ihl, offset, cut, payload.subrange(cut, payload.len() as int));
                Some(seq![second, first, first])
            }
        },
    }
}

fn make_half(frame: &[u8], ihl: usize, offset: usize, at: usize, part: &[u8]) -> (r: Vec<u8>)
    requires
        20 <= ihl <= 60,
        20 <= offset <= 60,
        14 + ihl + offset <= frame@.len(),
        ihl + offset + part@.len() <= 0xffff,
        at <= 0xffff,
    ensures
        r@ == half(frame@, ihl as int, offset as int, at as int, part@),
{
    reveal(half);
    let tcp: usize = 14 + ihl;
    let mut f = bytes::copied(frame, 0, tcp + offset);
    bytes::push_all(&mut f, part);
    bytes::put_be16(&mut f, 16, (ihl + offset + part.len()) as u16);
    put_header_sum(&mut f, tcp);
    let seq: u32 = bytes::get_be32(frame, tcp + 4);
    let moved: u32 = ((seq as u64 + at as u64) % 0x1_0000_0000) as u32;
    bytes::put_be32(&mut f, tcp + 4, moved);
    let sum: u16 = tcp_checksum(f.as_slice(), ihl);
    bytes::put_be16(&mut f, tcp + 16, sum);
    f
}

/// One data segment as two, the second half first and the first half twice. Each half carries its
/// own sequence number, length and checksums.
pub fn split_reversed(frame: &[u8]) -> (r: Option<Vec<Vec<u8>>>)
    ensures
        match r {
            Some(v) => reversed(frame@) == Some(frames(v@)),
            None => reversed(frame@) == None::<Seq<Seq<u8>>>,
        },
{
    let (ihl, total) = match ipv4_header(frame) {
        Some(p) => p,
        None => return None,
    };
    let tcp: usize = 14 + ihl;
    if tcp + 12 >= frame.len() {
        return None;
    }
    let offset: usize = (frame[tcp + 12] / 16) as usize * 4;
    if offset < 20 || total < ihl + offset + 2 {
        return None;
    }
    let payload = slice_subrange(frame, tcp + offset, 14 + total);
    let cut: usize = payload.len() / 2;
    let first = make_half(frame, ihl, offset, 0, slice_subrange(payload, 0, cut));
    let again = make_half(frame, ihl, offset, 0, slice_subrange(payload, 0, cut));
    let second = make_half(frame, ihl, offset, cut, slice_subrange(payload, cut, payload.len()));
    let mut out: Vec<Vec<u8>> = Vec::new();
    out.push(second);
    out.push(first);
    out.push(again);
    assert(frames(out@) =~= reversed(frame@)->Some_0);
    Some(out)
}

/// The data that a frame's segment carries.
pub open spec fn segment_data(f: Seq<u8>) -> Seq<u8> {
    let ihl = f[14] % 16 * 4;
    f.subrange(14 + ihl + tcp_header(f, ihl), 14 + bytes::be16(f, 16))
}

/// A frame's sequence number.
pub open spec fn sequence(f: Seq<u8>) -> int {
    bytes::be32(f, 14 + f[14] % 16 * 4 + 4)
}

/// Whether the checksum that a frame's segment carries is its own.
pub open spec fn segment_verifies(f: Seq<u8>) -> bool {
    let ihl = f[14] % 16 * 4;
    bytes::be16(f, 14 + ihl + 16) == checksum(segment_summed(f, ihl))
}

proof fn halves_say(f: Seq<u8>, ihl: int, total: int, offset: int, at: int, part: Seq<u8>)
    requires
        packet(f) == Some((ihl, total)),
        14 + ihl + 12 < f.len(),
        offset == tcp_header(f, ihl),
        20 <= offset,
        ihl + offset + part.len() <= total,
        0 <= at,
    ensures
        ({
            let g = half(f, ihl, offset, at, part);
            &&& g.len() == 14 + bytes::be16(g, 16)
            &&& segment_data(g) == part
            &&& sequence(g) == (sequence(f) + at) % 0x1_0000_0000
            &&& segment_verifies(g)
            &&& checksum(g.subrange(14, 14 + ihl)) == 0
        }),
{
    reveal(half);
    let tcp = 14 + ihl;
    let len = ihl + offset + part.len();
    let moved = (bytes::be32(f, tcp + 4) + at) % 0x1_0000_0000;
    let g0 = f.subrange(0, tcp + offset) + part;
    let g1 = bytes::splice(g0, 16, bytes::be16_bytes(len));
    let z = bytes::splice(g1, 24, bytes::zeros(2));
    let g2 = summed(g1, tcp);
    let g3 = bytes::splice(g2, tcp + 4, bytes::be32_bytes(moved));
    let g = half(f, ihl, offset, at, part);
    let head = z.subrange(14, tcp);
    checksums_verify(head, 10);
    assert(g.subrange(14, tcp) =~= bytes::splice(head, 10, bytes::be16_bytes(checksum(head))));
    bytes::be16_of_bytes(len);
    assert(bytes::be16(g, 16) == bytes::be16(bytes::be16_bytes(len), 0));
    bytes::be32_of_bytes(moved);
    assert(bytes::be32(g, tcp + 4) == bytes::be32(bytes::be32_bytes(moved), 0));
    assert(g[14] == f[14] && g[tcp + 12] == f[tcp + 12]);
    assert(segment_data(g) =~= part);
    let sum = checksum(segment_summed(g3, ihl));
    bytes::be16_of_bytes(sum);
    assert(bytes::be16(g, tcp + 16) == bytes::be16(bytes::be16_bytes(sum), 0));
    assert(g.subrange(26, 34) =~= g3.subrange(26, 34));
    let (s, t) = (g.subrange(tcp, g.len() as int), g3.subrange(tcp, g3.len() as int));
    assert(bytes::splice(s, 16, bytes::zeros(2)) =~= bytes::splice(t, 16, bytes::zeros(2)));
}

/// The halves of a split segment are the whole of it: the first two are its two halves, each at the
/// sequence number where its data stands, the third is the front half again, and every one of them
/// verifies.
pub proof fn halves_rejoin(f: Seq<u8>)
    requires
        reversed(f) is Some,
    ensures
        ({
            let v = reversed(f)->Some_0;
            &&& v.len() == 3 && v[2] == v[1]
            &&& segment_data(v[1]) + segment_data(v[0]) == segment_data(f)
            &&& sequence(v[1]) == sequence(f)
            &&& sequence(v[0]) == (sequence(f) + segment_data(v[1]).len()) % 0x1_0000_0000
            &&& segment_verifies(v[0]) && segment_verifies(v[1])
        }),
{
    let (ihl, total) = packet(f)->Some_0;
    let offset = tcp_header(f, ihl);
    let payload = f.subrange(14 + ihl + offset, 14 + total);
    let cut = payload.len() as int / 2;
    let (p, q) = (payload.subrange(0, cut), payload.subrange(cut, payload.len() as int));
    halves_say(f, ihl, total, offset, 0, p);
    halves_say(f, ihl, total, offset, cut, q);
    assert(p + q =~= payload);
    assert(segment_data(f) =~= payload);
}

/// The UDP payload of the datagram that a frame carries whole.
pub open spec fn datagram_data(f: Seq<u8>) -> Option<Seq<u8>> {
    match packet(f) {
        Some((ihl, total)) if f[23] == 17 && ihl + 8 <= total => Some(f.subrange(14 + ihl + 8, 14 + total)),
        _ => None,
    }
}

/// The UDP payload of an IPv4 datagram in a frame, if it is one and is not itself a fragment.
pub fn udp_payload(frame: &[u8]) -> (r: Option<Vec<u8>>)
    ensures
        match r {
            Some(p) => datagram_data(frame@) == Some(p@),
            None => datagram_data(frame@) == None::<Seq<u8>>,
        },
{
    match ipv4_header(frame) {
        Some((ihl, total)) => {
            if frame[23] == 17 && ihl + 8 <= total {
                Some(bytes::copied(frame, 14 + ihl + 8, 14 + total))
            } else {
                None
            }
        },
        None => None,
    }
}

/// Whether a frame is a TCP segment carrying data from `port`.
pub open spec fn data_from(f: Seq<u8>, port: u16) -> bool {
    match packet(f) {
        Some((ihl, total)) => f[23] == 6 && 14 + ihl + 12 < f.len() && bytes::be16(f, 14 + ihl) == port && total > ihl
            + tcp_header(f, ihl),
        None => false,
    }
}

/// Whether a frame is a TCP segment carrying data from `port`.
pub fn tcp_data_from(frame: &[u8], port: u16) -> (r: bool)
    ensures
        r == data_from(frame@, port),
{
    match ipv4_header(frame) {
        Some((ihl, total)) => {
            let tcp: usize = 14 + ihl;
            frame[23] == 6 && tcp + 12 < frame.len() && bytes::get_be16(frame, tcp) == port && total > ihl + (frame[tcp
                + 12] / 16) as usize * 4
        },
        None => false,
    }
}

/// The port a segment is sent to.
pub open spec fn sent_to(f: Seq<u8>) -> Option<int> {
    match packet(f) {
        Some((ihl, _)) if 14 + ihl + 4 <= f.len() => Some(bytes::be16(f, 14 + ihl + 2)),
        _ => None,
    }
}

/// The guest's own port, on a segment the service sent it.
pub fn guest_port(frame: &[u8]) -> (r: Option<u16>)
    ensures
        match r {
            Some(p) => sent_to(frame@) == Some(p as int),
            None => sent_to(frame@) == None::<int>,
        },
{
    match ipv4_header(frame) {
        Some((ihl, _)) => {
            if 14 + ihl + 4 <= frame.len() {
                Some(bytes::get_be16(frame, 14 + ihl + 2))
            } else {
                None
            }
        },
        None => None,
    }
}

/// What has been done to the frames on their way to the guest so far.
pub struct Disturbance {
    pub tcp_port: u16,
    /// The guest ports whose first data segment has been split already: one disturbance for each
    /// connection.
    pub split: HashSet<u16>,
}

/// Whether a frame is the data segment that is split: the service's first on its connection.
pub open spec fn is_split(f: Seq<u8>, port: u16, split: Set<u16>) -> bool {
    data_from(f, port) && sent_to(f) is Some && !split.contains(sent_to(f)->Some_0 as u16) && reversed(f) is Some
}

/// Whether a frame is the datagram that is fragmented.
pub open spec fn is_fragmented(f: Seq<u8>) -> bool {
    datagram_data(f) is Some && bytes::begins(datagram_data(f)->Some_0, NET_UDP_FRAGMENTED@) && fragments(f) is Some
}

/// The frames that reach the guest in place of one.
pub open spec fn disturbed(f: Seq<u8>, port: u16, split: Set<u16>) -> Seq<Seq<u8>> {
    if is_fragmented(f) {
        fragments(f)->Some_0
    } else if is_split(f, port, split) {
        reversed(f)->Some_0
    } else {
        seq![f]
    }
}

fn is_marked(frame: &[u8]) -> (r: bool)
    ensures
        r == (datagram_data(frame@) is Some && bytes::begins(datagram_data(frame@)->Some_0, NET_UDP_FRAGMENTED@)),
{
    match udp_payload(frame) {
        Some(p) => bytes::starts_with(p.as_slice(), NET_UDP_FRAGMENTED.as_slice()),
        None => false,
    }
}

/// The frames to send the guest in place of one: two for a datagram that is fragmented, three for
/// the data segment that is split and sent backwards, and otherwise the frame itself. Nothing is
/// ever held back waiting for another frame.
pub fn disturb(frame: &[u8], state: &mut Disturbance) -> (r: Vec<Vec<u8>>)
    ensures
        final(state).tcp_port == old(state).tcp_port,
        frames(r@) == disturbed(frame@, old(state).tcp_port, old(state).split@),
        final(state).split@ == if !is_fragmented(frame@) && is_split(
            frame@,
            old(state).tcp_port,
            old(state).split@,
        ) {
            old(state).split@.insert(sent_to(frame@)->Some_0 as u16)
        } else {
            old(state).split@
        },
{
    broadcast use vstd::std_specs::hash::group_hash_axioms;

    if is_marked(frame) {
        if let Some(pieces) = fragment_datagram(frame) {
            return pieces;
        }
    }
    if tcp_data_from(frame, state.tcp_port) {
        if let Some(port) = guest_port(frame) {
            if !state.split.contains(&port) {
                if let Some(pieces) = split_reversed(frame) {
                    state.split.insert(port);
                    return pieces;
                }
            }
        }
    }
    let mut out: Vec<Vec<u8>> = Vec::new();
    out.push(bytes::copied(frame, 0, frame.len()));
    assert(out@[0]@ =~= frame@);
    assert(frames(out@) =~= seq![frame@]);
    out
}

/// The connection that a guest port's latest SYN began: its initial sequence number, and whether
/// its first data segment has been dropped yet.
pub ghost struct Told {
    pub port: u16,
    pub seq: u32,
    pub flags: u8,
    pub data: int,
}

/// The TCP segment in a frame that is addressed to `port`, as far as dropping one needs it.
pub open spec fn told(f: Seq<u8>, port: u16) -> Option<Told> {
    let ihl = f[14] % 16 * 4;
    let tcp = 14 + ihl;
    if f.len() >= 24 && f[12] == 8 && f[13] == 0 && f[23] == 6 && tcp + 14 <= f.len() && bytes::be16(f, tcp + 2)
        == port {
        let used = ihl + tcp_header(f, ihl);
        let total = bytes::be16(f, 16);
        Some(
            Told {
                port: bytes::be16(f, tcp) as u16,
                seq: bytes::be32(f, tcp + 4) as u32,
                flags: f[tcp + 13],
                data: if total > used {
                    total - used
                } else {
                    0
                },
            },
        )
    } else {
        None
    }
}

/// Whether a segment only opens a connection: SYN without ACK.
pub open spec fn opens(flags: u8) -> bool {
    flags / 2 % 2 == 1 && flags / 16 % 2 == 0
}

/// Whether a frame is the first data segment of its connection, seen for the first time.
pub open spec fn is_first_data(f: Seq<u8>, port: u16, known: Map<u16, (u32, bool)>) -> bool {
    match told(f, port) {
        Some(t) => !opens(t.flags) && known.contains_key(t.port) && t.data > 0 && !known[t.port].1 && t.seq == (
        known[t.port].0 + 1) % 0x1_0000_0000,
        None => false,
    }
}

/// What is known of the connections once a frame has gone by.
pub open spec fn known_after(f: Seq<u8>, port: u16, known: Map<u16, (u32, bool)>) -> Map<u16, (u32, bool)> {
    match told(f, port) {
        Some(t) => if opens(t.flags) {
            known.insert(t.port, (t.seq, false))
        } else if is_first_data(f, port, known) {
            known.insert(t.port, (known[t.port].0, true))
        } else {
            known
        },
        None => known,
    }
}

/// Whether a frame is the first data segment of a connection to `tcp_port`, seen for the first
/// time: the one frame that is dropped on its way out, so that the guest must send it again.
/// `connections` maps a guest port to the initial sequence number that its latest SYN carried and
/// whether that connection's first data segment has been dropped yet.
pub fn first_data_segment(frame: &[u8], tcp_port: u16, connections: &mut HashMap<u16, (u32, bool)>) -> (r: bool)
    ensures
        r == is_first_data(frame@, tcp_port, old(connections)@),
        final(connections)@ == known_after(frame@, tcp_port, old(connections)@),
{
    broadcast use vstd::std_specs::hash::group_hash_axioms;

    if frame.len() < 24 || frame[12] != 8 || frame[13] != 0 || frame[23] != 6 {
        return false;
    }
    let ihl: usize = (frame[14] % 16) as usize * 4;
    let tcp: usize = 14 + ihl;
    if tcp + 14 > frame.len() || bytes::get_be16(frame, tcp + 2) != tcp_port {
        return false;
    }
    let total: usize = bytes::get_be16(frame, 16) as usize;
    let src: u16 = bytes::get_be16(frame, tcp);
    let seq: u32 = bytes::get_be32(frame, tcp + 4);
    let used: usize = ihl + (frame[tcp + 12] / 16) as usize * 4;
    let flags: u8 = frame[tcp + 13];
    if flags / 2 % 2 == 1 && flags / 16 % 2 == 0 {
        connections.insert(src, (seq, false));
        return false;
    }
    let seen: Option<(u32, bool)> = match connections.get(&src) {
        Some(c) => Some(*c),
        None => None,
    };
    match seen {
        Some((isn, dropped)) => {
            if total > used && !dropped && seq as u64 == (isn as u64 + 1) % 0x1_0000_0000 {
                connections.insert(src, (isn, true));
                true
            } else {
                false
            }
        },
        None => false,
    }
}

/// A dropped segment is dropped once: sent again, it passes, and leaves what is known as it was.
pub proof fn first_data_is_dropped_once(f: Seq<u8>, port: u16, known: Map<u16, (u32, bool)>)
    requires
        is_first_data(f, port, known),
    ensures
        !is_first_data(f, port, known_after(f, port, known)),
        known_after(f, port, known_after(f, port, known)) == known_after(f, port, known),
{
}

/// A split segment is split once: every later segment of its connection reaches the guest as it is.
pub proof fn connections_are_split_once(f: Seq<u8>, g: Seq<u8>, port: u16, split: Set<u16>)
    requires
        !is_fragmented(g),
        sent_to(g) is Some,
        sent_to(g) == sent_to(f),
    ensures
        disturbed(g, port, split.insert(sent_to(f)->Some_0 as u16)) == seq![g],
{
}

} // verus!
