//! The host's side of the kernel's network check over QEMU's user-mode network: what is sent to the
//! guest, and what each thing it says earns.

use vstd::prelude::*;

use crate::bytes;
use crate::qemu::wire;
use crate::qemu::wire::{
    NET_ACK, NET_ECHO, NET_FRAGMENT_PATTERN, NET_PROBE, NET_TCP_ANNOUNCE, NET_TCP_INBOUND, NET_TCP_INBOUND_REPLY,
    NET_TCP_INBOUND_VERIFIED, NET_TCP_INBOUND_WRONG, NET_TCP_LISTENING, NET_TCP_REPLY, NET_TCP_REQUEST,
    NET_UDP_ANNOUNCE, NET_UDP_FRAGMENTED, NET_UDP_QUIET, NET_UDP_REPLY, NET_UDP_REQUEST, PEER_CLOSES,
};
use crate::qemu::NetPorts;
use crate::text;

verus! {

/// How often the probe is sent, in milliseconds: a guest that is not listening yet has missed
/// nothing that will not come again.
pub const NET_PROBE_EVERY: u64 = 250;

/// The longest request that the TCP service reads, in bytes.
pub const LONGEST_REQUEST: usize = 4096;

/// The longest reply of the guest's server that is read, in bytes.
pub const LONGEST_REPLY: usize = 256;

/// How often a connection into the guest is tried.
pub const INBOUND_TRIES: u32 = 20;

/// The end of a line.
pub const NEWLINE: [u8; 1] = [10u8];

/// The number of the one fragmented datagram, and the space behind it: `1 `.
pub const FIRST_NUMBER: [u8; 2] = [49u8, 32];

/// A port's number in decimal digits.
pub open spec fn number(n: u16) -> Seq<u8> {
    vstd::utf8::encode_utf8(text::decimal(n as int))
}

/// What the guest checks once it has put the fragmented datagram back together.
pub open spec fn pattern() -> Seq<u8> {
    Seq::new(NET_FRAGMENT_PATTERN as nat, |i: int| (i as u8) ^ 0x5a)
}

/// What the host sends, four times a second: a probe, the ports that the guest cannot otherwise
/// know, and the datagram that reaches it in fragments.
pub open spec fn sent(p: NetPorts) -> Seq<Seq<u8>> {
    seq![
        NET_PROBE@,
        NET_TCP_ANNOUNCE@ + number(p.tcp),
        NET_UDP_ANNOUNCE@ + number(p.udp_service),
        NET_UDP_QUIET@ + number(p.quiet),
        NET_UDP_FRAGMENTED@ + FIRST_NUMBER@ + pattern(),
    ]
}

pub fn joined2(a: &[u8], b: &[u8]) -> (r: Vec<u8>)
    ensures
        r@ == a@ + b@,
{
    let mut r = bytes::copied(a, 0, a.len());
    assert(r@ =~= a@);
    bytes::push_all(&mut r, b);
    r
}

fn announcement(a: &[u8], port: u16) -> (r: Vec<u8>)
    ensures
        r@ == a@ + number(port),
{
    let n = text::int_text(port as i128);
    joined2(a, n.as_str().as_bytes())
}

fn pattern_bytes() -> (r: Vec<u8>)
    ensures
        r@ == pattern(),
{
    let mut r: Vec<u8> = Vec::new();
    let mut i: usize = 0;
    while i < NET_FRAGMENT_PATTERN
        invariant
            i <= NET_FRAGMENT_PATTERN,
            r@ =~= pattern().subrange(0, i as int),
        decreases NET_FRAGMENT_PATTERN - i,
    {
        r.push((i as u8) ^ 0x5a);
        i += 1;
    }
    assert(r@ =~= pattern());
    r
}

/// The datagrams that the host sends the guest, four times a second.
pub fn announcements(p: &NetPorts) -> (r: Vec<Vec<u8>>)
    ensures
        wire::frames(r@) == sent(*p),
{
    let mut out: Vec<Vec<u8>> = Vec::new();
    out.push(bytes::copied(NET_PROBE.as_slice(), 0, NET_PROBE.as_slice().len()));
    out.push(announcement(NET_TCP_ANNOUNCE.as_slice(), p.tcp));
    out.push(announcement(NET_UDP_ANNOUNCE.as_slice(), p.udp_service));
    out.push(announcement(NET_UDP_QUIET.as_slice(), p.quiet));
    let mut last = joined2(NET_UDP_FRAGMENTED.as_slice(), FIRST_NUMBER.as_slice());
    bytes::push_all(&mut last, pattern_bytes().as_slice());
    out.push(last);
    assert(out@[0]@ =~= NET_PROBE@);
    assert(wire::frames(out@) =~= sent(*p));
    out
}

/// What stands behind a prefix.
pub open spec fn behind(s: Seq<u8>, p: Seq<u8>) -> Option<Seq<u8>> {
    if bytes::begins(s, p) {
        Some(s.subrange(p.len() as int, s.len() as int))
    } else {
        None
    }
}

/// Whether every byte is a decimal digit.
pub open spec fn all_digits(b: Seq<u8>) -> bool {
    forall|i: int| 0 <= i < b.len() ==> 48 <= #[trigger] b[i] <= 57
}

/// The number that a listener is announced with: one to sixteen digits.
pub open spec fn tag_in(datagram: Seq<u8>) -> Option<Seq<u8>> {
    match behind(datagram, NET_TCP_LISTENING@) {
        Some(t) if 0 < t.len() <= 16 && all_digits(t) => Some(t),
        _ => None,
    }
}

/// The number that a listener is announced with, if a datagram does that.
pub fn listening_tag(datagram: &[u8]) -> (r: Option<Vec<u8>>)
    ensures
        match r {
            Some(t) => tag_in(datagram@) == Some(t@),
            None => tag_in(datagram@) == None::<Seq<u8>>,
        },
{
    let tag = match bytes::strip_prefix(datagram, NET_TCP_LISTENING.as_slice()) {
        Some(t) => t,
        None => return None,
    };
    if tag.len() == 0 || tag.len() > 16 {
        return None;
    }
    let mut i: usize = 0;
    while i < tag.len()
        invariant
            i <= tag@.len(),
            behind(datagram@, NET_TCP_LISTENING@) == Some(tag@),
            forall|k: int| 0 <= k < i ==> 48 <= #[trigger] tag@[k] <= 57,
        decreases tag@.len() - i,
    {
        if tag[i] < 48 || tag[i] > 57 {
            assert(!all_digits(tag@)) by {
                assert(!(48 <= tag@[i as int] <= 57));
            }
            return None;
        }
        i += 1;
    }
    Some(tag)
}

/// What a datagram from the guest asks for.
#[derive(Debug)]
pub enum Heard {
    /// A datagram to send back.
    Answer(Vec<u8>),
    /// A connection to the listener with this number, which was not connected to before.
    Connect(Vec<u8>),
    Nothing,
}

/// What a datagram from the guest asks for, given the listeners already connected to.
pub open spec fn heard_is(h: Heard, datagram: Seq<u8>, known: Seq<Seq<u8>>) -> bool {
    match behind(datagram, NET_ECHO@) {
        Some(n) => h matches Heard::Answer(a) && a@ == NET_ACK@ + n,
        None => match tag_in(datagram) {
            Some(t) if !known.contains(t) => h matches Heard::Connect(c) && c@ == t,
            _ => h is Nothing,
        },
    }
}

fn knows(known: &Vec<Vec<u8>>, tag: &[u8]) -> (r: bool)
    ensures
        r == wire::frames(known@).contains(tag@),
{
    let ghost all = wire::frames(known@);
    let mut i: usize = 0;
    while i < known.len()
        invariant
            i <= known@.len(),
            all == wire::frames(known@),
            forall|k: int| 0 <= k < i ==> #[trigger] all[k] != tag@,
        decreases known@.len() - i,
    {
        assert(all[i as int] == known@[i as int]@);
        if bytes::same_bytes(known[i].as_slice(), tag) {
            assert(all.contains(tag@));
            return true;
        }
        i += 1;
    }
    assert(!all.contains(tag@));
    false
}

/// What a datagram from the guest asks for. An echo is answered with its acknowledgement, and a
/// listener is connected to once, however often it is announced.
pub fn hear(datagram: &[u8], known: &mut Vec<Vec<u8>>) -> (r: Heard)
    ensures
        heard_is(r, datagram@, wire::frames(old(known)@)),
        wire::frames(final(known)@) == match r {
            Heard::Connect(t) => wire::frames(old(known)@).push(t@),
            _ => wire::frames(old(known)@),
        },
{
    if let Some(n) = bytes::strip_prefix(datagram, NET_ECHO.as_slice()) {
        return Heard::Answer(joined2(NET_ACK.as_slice(), n.as_slice()));
    }
    if let Some(tag) = listening_tag(datagram) {
        if !knows(known, tag.as_slice()) {
            let ghost before = wire::frames(known@);
            let kept = bytes::copied(tag.as_slice(), 0, tag.len());
            assert(kept@ =~= tag@);
            known.push(kept);
            assert(wire::frames(known@) =~= before.push(tag@));
            return Heard::Connect(tag);
        }
    }
    Heard::Nothing
}

/// What the datagram service sends back: nothing at all for what is not a request.
pub open spec fn service_answer(datagram: Seq<u8>) -> Option<Seq<u8>> {
    match behind(datagram, NET_UDP_REQUEST@) {
        Some(tag) => Some(NET_UDP_REPLY@ + tag),
        None => None,
    }
}

/// What the datagram service sends back.
pub fn service_reply(datagram: &[u8]) -> (r: Option<Vec<u8>>)
    ensures
        match r {
            Some(a) => service_answer(datagram@) == Some(a@),
            None => service_answer(datagram@) == None::<Seq<u8>>,
        },
{
    match bytes::strip_prefix(datagram, NET_UDP_REQUEST.as_slice()) {
        Some(tag) => Some(joined2(NET_UDP_REPLY.as_slice(), tag.as_slice())),
        None => None,
    }
}

/// A line of the exchange with the guest's server: a word, and the listener's number.
pub open spec fn line(word: Seq<u8>, tag: Seq<u8>) -> Seq<u8> {
    word + tag + NEWLINE@
}

pub fn line_bytes(word: &[u8], tag: &[u8]) -> (r: Vec<u8>)
    ensures
        r@ == line(word@, tag@),
{
    let mut r = joined2(word, tag);
    bytes::push_all(&mut r, NEWLINE.as_slice());
    r
}

/// What the host says on a connection into the guest.
pub fn inbound_request(tag: &[u8]) -> (r: Vec<u8>)
    ensures
        r@ == line(NET_TCP_INBOUND@, tag@),
{
    line_bytes(NET_TCP_INBOUND.as_slice(), tag)
}

/// Whether more of the guest's reply is to be read.
pub fn reply_goes_on(reply: &[u8]) -> (r: bool)
    ensures
        r == (!bytes::ends(reply@, NEWLINE@) && reply@.len() <= LONGEST_REPLY),
{
    !bytes::ends_with(reply, NEWLINE.as_slice()) && reply.len() <= LONGEST_REPLY
}

/// The verdict on what the guest's server replied.
pub open spec fn verdict_on(reply: Seq<u8>, tag: Seq<u8>) -> Seq<u8> {
    line(
        if reply == line(NET_TCP_INBOUND_REPLY@, tag) {
            NET_TCP_INBOUND_VERIFIED@
        } else {
            NET_TCP_INBOUND_WRONG@
        },
        tag,
    )
}

/// The verdict on what the guest's server replied.
pub fn inbound_verdict(reply: &[u8], tag: &[u8]) -> (r: Vec<u8>)
    ensures
        r@ == verdict_on(reply@, tag@),
{
    let expected = line_bytes(NET_TCP_INBOUND_REPLY.as_slice(), tag);
    if bytes::same_bytes(reply, expected.as_slice()) {
        line_bytes(NET_TCP_INBOUND_VERIFIED.as_slice(), tag)
    } else {
        line_bytes(NET_TCP_INBOUND_WRONG.as_slice(), tag)
    }
}

/// How far a request to the TCP service has come.
#[derive(Clone, Copy, Debug, PartialEq, Eq, Structural)]
pub enum Reading {
    More,
    Whole,
    TooLong,
}

/// How far a request to the TCP service has come: it is one line.
pub fn request_state(request: &[u8]) -> (r: Reading)
    ensures
        r == if bytes::ends(request@, NEWLINE@) {
            Reading::Whole
        } else if request@.len() > LONGEST_REQUEST {
            Reading::TooLong
        } else {
            Reading::More
        },
{
    if bytes::ends_with(request, NEWLINE.as_slice()) {
        Reading::Whole
    } else if request.len() > LONGEST_REQUEST {
        Reading::TooLong
    } else {
        Reading::More
    }
}

/// The TCP service's reply: two segments, so that there is a pair to reorder, and whether the
/// service closes its end first.
#[derive(Debug)]
pub struct Reply {
    pub first: Vec<u8>,
    pub second: Vec<u8>,
    pub peer_closes: bool,
}

/// The whole reply to a request.
pub open spec fn reply_to(request: Seq<u8>) -> Option<Seq<u8>> {
    match behind(request, NET_TCP_REQUEST@) {
        Some(rest) => Some(NET_TCP_REPLY@ + rest),
        None => None,
    }
}

/// Whether a request asks the service to close first.
pub open spec fn closes_first(request: Seq<u8>) -> bool {
    match behind(request, NET_TCP_REQUEST@) {
        Some(rest) => bytes::begins(rest, PEER_CLOSES@),
        None => false,
    }
}

/// The TCP service's reply to a request: the same line behind another word, in two halves.
pub fn tcp_reply(request: &[u8]) -> (r: Option<Reply>)
    ensures
        match r {
            Some(a) => reply_to(request@) == Some(a.first@ + a.second@) && a.first@.len() == (a.first@.len()
                + a.second@.len()) / 2 && a.peer_closes == closes_first(request@),
            None => reply_to(request@) == None::<Seq<u8>>,
        },
{
    let rest = match bytes::strip_prefix(request, NET_TCP_REQUEST.as_slice()) {
        Some(rest) => rest,
        None => return None,
    };
    let reply = joined2(NET_TCP_REPLY.as_slice(), rest.as_slice());
    let split: usize = reply.len() / 2;
    let first = bytes::copied(reply.as_slice(), 0, split);
    let second = bytes::copied(reply.as_slice(), split, reply.len());
    assert(first@ + second@ =~= reply@);
    Some(Reply { first, second, peer_closes: bytes::starts_with(rest.as_slice(), PEER_CLOSES.as_slice()) })
}

/// A right reply, and no other, is verified.
pub proof fn only_the_right_reply_is_verified(reply: Seq<u8>, tag: Seq<u8>)
    ensures
        verdict_on(reply, tag) == line(NET_TCP_INBOUND_VERIFIED@, tag) <==> reply == line(NET_TCP_INBOUND_REPLY@, tag),
{
    let (v, w) = (line(NET_TCP_INBOUND_VERIFIED@, tag), line(NET_TCP_INBOUND_WRONG@, tag));
    assert(v.len() == 29 + tag.len() + 1);
    assert(w.len() == 26 + tag.len() + 1);
}

/// A listener that was announced is connected to once: announced again, it asks for nothing.
pub proof fn listeners_are_connected_once(h: Heard, datagram: Seq<u8>, known: Seq<Seq<u8>>)
    requires
        tag_in(datagram) is Some,
        heard_is(h, datagram, known.push(tag_in(datagram)->Some_0)),
    ensures
        h is Nothing,
{
    let t = tag_in(datagram)->Some_0;
    assert(known.push(t)[known.len() as int] == t);
    if bytes::begins(datagram, NET_ECHO@) {
        assert(datagram.subrange(0, 17)[8] == NET_ECHO@[8]);
        assert(datagram.subrange(0, 22)[8] == NET_TCP_LISTENING@[8]);
    }
}

} // verus!
