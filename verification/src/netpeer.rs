//! The host as the whole network: raw Ethernet frames in, raw Ethernet frames out.
//!
//! There is no NAT and no gateway: nothing answers the guest unless this module answers it. That is
//! the point. QEMU's user-mode network never offers selective acknowledgement and never refuses a
//! datagram, so neither can be exercised in a guest behind it.

use vstd::prelude::*;
use vstd::slice::slice_subrange;
use vstd::string::*;

use crate::bytes;
use crate::qemu::services;
use crate::qemu::services::NEWLINE;
use crate::qemu::wire;
use crate::qemu::wire::{
    NET_ACK, NET_ECHO, NET_GUEST_PORT, NET_GUEST_TCP_PORT, NET_TCP_INBOUND, NET_TCP_LISTENING, NET_UDP_REPLY,
    NET_UDP_REQUEST,
};
use crate::qemu::NetPorts;
use crate::text;

verus! {

/// The address that the guest is configured to reach.
pub const GATEWAY: [u8; 4] = [10u8, 0, 2, 2];

/// The hardware address that this end answers from.
pub const PEER_MAC: [u8; 6] = [0x52u8, 0x55, 0x0a, 0x00, 0x02, 0x02];

/// The one guest's address.
pub const GUEST: [u8; 4] = [10u8, 0, 2, 15];

pub const ETHERTYPE_ARP: [u8; 2] = [0x08u8, 0x06];

pub const ETHERTYPE_IPV4: [u8; 2] = [0x08u8, 0x00];

pub const ARP_REQUEST: u16 = 1;

pub const ARP_REPLY: u16 = 2;

pub const PROTO_ICMP: u8 = 1;

pub const PROTO_UDP: u8 = 17;

pub const PROTO_TCP: u8 = 6;

pub const TCP_FIN: u8 = 0x01;

pub const TCP_SYN: u8 = 0x02;

pub const TCP_RST: u8 = 0x04;

pub const TCP_PSH: u8 = 0x08;

pub const TCP_ACK: u8 = 0x10;

/// An acknowledgement with data: ACK and PSH.
pub const TCP_DATA: u8 = 0x18;

/// An acknowledgement that closes: ACK and FIN.
pub const TCP_CLOSE: u8 = 0x11;

/// The answer to a SYN: SYN and ACK.
pub const TCP_ACCEPT: u8 = 0x12;

pub const TCP_OPT_END: u8 = 0;

pub const TCP_OPT_NOP: u8 = 1;

pub const TCP_OPT_MSS: u8 = 2;

pub const TCP_OPT_SACK_PERMITTED: u8 = 4;

pub const TCP_OPT_SACK: u8 = 5;

/// The most runs that one selective acknowledgement names.
pub const SACK_BLOCKS: usize = 3;

/// What this end advertises that it can take.
pub const PEER_WINDOW: u16 = 0xffff;

pub const ICMP_ECHO_REQUEST: u8 = 8;

pub const ICMP_ECHO_REPLY: u8 = 0;

/// Destination unreachable, and the code that says that the port has nobody on it.
pub const ICMP_UNREACHABLE: u8 = 3;

pub const ICMP_PORT_UNREACHABLE: u8 = 3;

/// How often the announcements go out, in milliseconds.
pub const ANNOUNCE_EVERY: u64 = 250;

/// The first port that this end gives a connection it opens, above the range the guest draws its own
/// from.
pub const FIRST_LOCAL_PORT: u16 = 49_152;

/// Whether a segment's flags hold one of them.
pub open spec fn flagged(flags: u8, flag: u8) -> bool {
    flags / flag % 2 == 1
}

/// A sequence number further on, where sequence numbers wrap.
pub open spec fn plus(a: u32, n: int) -> u32 {
    ((a + n) % 0x1_0000_0000) as u32
}

/// How far `b` lies past `a` where sequence numbers wrap.
pub open spec fn past(a: u32, b: u32) -> int {
    (b - a) % 0x1_0000_0000
}

/// Whether `a` comes before `b` where sequence numbers wrap.
pub open spec fn comes_before(a: u32, b: u32) -> bool {
    a != b && past(a, b) < 0x8000_0000
}

fn further(a: u32, n: usize) -> (r: u32)
    ensures
        r == plus(a, n as int),
{
    let low: u64 = n as u64 % 0x1_0000_0000;
    assert((a + low) % 0x1_0000_0000 == (a + n) % 0x1_0000_0000) by {
        vstd::arithmetic::div_mod::lemma_add_mod_noop_right(a as int, n as int, 0x1_0000_0000);
    }
    ((a as u64 + low) % 0x1_0000_0000) as u32
}

fn distance(a: u32, b: u32) -> (r: u32)
    ensures
        r == past(a, b),
{
    if b >= a {
        b - a
    } else {
        proof {
            vstd::arithmetic::div_mod::lemma_mod_add_multiples_vanish((b - a) as int, 0x1_0000_0000);
        }
        (0x1_0000_0000u64 - (a - b) as u64) as u32
    }
}

/// Whether `a` comes before `b` in sequence space, which wraps.
pub fn before(a: u32, b: u32) -> (r: bool)
    ensures
        r == comes_before(a, b),
{
    a != b && distance(a, b) < 0x8000_0000
}

/// What crossed the socket, and what this end did about it.
#[derive(Clone, Copy, Debug)]
pub struct Seen {
    pub frames: u64,
    pub arp_requests: u64,
    pub arp_answered: u64,
    pub echoes_answered: u64,
    pub acks_sent: u64,
    pub service_replies: u64,
    pub announcements: u64,
    pub connections: u64,
    pub dropped_first: u64,
    pub duplicate_acks: u64,
    pub replies_reversed: u64,
    pub opened: u64,
    pub verdicts: u64,
    /// Acknowledgements this end sent with selective blocks, and the runs named in them.
    pub selective_acks: u64,
    pub blocks_sent: u64,
    /// Acknowledgements the guest sent with blocks of its own.
    pub guest_blocks: u64,
    /// Data segments the guest sent a second time, and the bytes in them.
    pub guest_retransmits: u64,
    pub guest_retransmit_bytes: u64,
    /// Datagrams to the quiet port answered with a destination-unreachable message.
    pub refusals: u64,
}

/// Whether every counter has room for what one frame can add to it.
pub open spec fn room(s: Seen) -> bool {
    let most = u64::MAX - 0x1_0000;
    &&& s.frames <= most
    &&& s.arp_requests <= most
    &&& s.arp_answered <= most
    &&& s.echoes_answered <= most
    &&& s.acks_sent <= most
    &&& s.service_replies <= most
    &&& s.announcements <= most
    &&& s.connections <= most
    &&& s.dropped_first <= most
    &&& s.duplicate_acks <= most
    &&& s.replies_reversed <= most
    &&& s.opened <= most
    &&& s.verdicts <= most
    &&& s.selective_acks <= most
    &&& s.blocks_sent <= most
    &&& s.guest_blocks <= most
    &&& s.guest_retransmits <= most
    &&& s.guest_retransmit_bytes <= most
    &&& s.refusals <= most
}

/// What is reported of a run, in a line.
#[verifier::opaque]
pub open spec fn reported(s: Seen) -> Seq<char> {
    "  net peer: "@ + text::decimal(s.frames as int)
        + " frames in, "@ + text::decimal(s.arp_requests as int)
        + " ARP requests, "@ + text::decimal(s.arp_answered as int)
        + " answered, "@ + text::decimal(s.echoes_answered as int)
        + " echoes answered, "@ + text::decimal(s.acks_sent as int)
        + " acknowledgements, "@ + text::decimal(s.service_replies as int)
        + " service replies, "@ + text::decimal(s.announcements as int)
        + " rounds of announcements, "@ + text::decimal(s.connections as int)
        + " connections, "@ + text::decimal(s.dropped_first as int)
        + " first segments dropped, "@ + text::decimal(s.duplicate_acks as int)
        + " duplicate acknowledgements, "@ + text::decimal(s.replies_reversed as int)
        + " replies sent back to front, "@ + text::decimal(s.opened as int)
        + " connections opened, "@ + text::decimal(s.verdicts as int)
        + " verdicts sent, "@ + text::decimal(s.selective_acks as int)
        + " selective acknowledgements naming "@ + text::decimal(s.blocks_sent as int)
        + " runs, "@ + text::decimal(s.guest_blocks as int)
        + " acknowledgements with blocks of the guest's own, "@ + text::decimal(s.guest_retransmits as int)
        + " segments the guest sent again ("@ + text::decimal(s.guest_retransmit_bytes as int)
        + " bytes), "@ + text::decimal(s.refusals as int)
        + " datagrams refused"@
}

/// Every counter before anything has crossed the network.
pub open spec fn nothing_seen() -> Seen {
    Seen {
        frames: 0,
        arp_requests: 0,
        arp_answered: 0,
        echoes_answered: 0,
        acks_sent: 0,
        service_replies: 0,
        announcements: 0,
        connections: 0,
        dropped_first: 0,
        duplicate_acks: 0,
        replies_reversed: 0,
        opened: 0,
        verdicts: 0,
        selective_acks: 0,
        blocks_sent: 0,
        guest_blocks: 0,
        guest_retransmits: 0,
        guest_retransmit_bytes: 0,
        refusals: 0,
    }
}

impl Seen {
    pub fn new() -> (r: Seen)
        ensures
            room(r),
            r == nothing_seen(),
    {
        Seen {
            frames: 0,
            arp_requests: 0,
            arp_answered: 0,
            echoes_answered: 0,
            acks_sent: 0,
            service_replies: 0,
            announcements: 0,
            connections: 0,
            dropped_first: 0,
            duplicate_acks: 0,
            replies_reversed: 0,
            opened: 0,
            verdicts: 0,
            selective_acks: 0,
            blocks_sent: 0,
            guest_blocks: 0,
            guest_retransmits: 0,
            guest_retransmit_bytes: 0,
            refusals: 0,
        }
    }

    /// What is reported of a run, in a line.
    pub fn report(&self) -> (r: String)
        ensures
            r@ == reported(*self),
    {
        reveal(reported);
        let mut r = "  net peer: ".to_owned();
        r.append(text::int_text(self.frames as i128).as_str());
        r.append(" frames in, ");
        r.append(text::int_text(self.arp_requests as i128).as_str());
        r.append(" ARP requests, ");
        r.append(text::int_text(self.arp_answered as i128).as_str());
        r.append(" answered, ");
        r.append(text::int_text(self.echoes_answered as i128).as_str());
        r.append(" echoes answered, ");
        r.append(text::int_text(self.acks_sent as i128).as_str());
        r.append(" acknowledgements, ");
        r.append(text::int_text(self.service_replies as i128).as_str());
        r.append(" service replies, ");
        r.append(text::int_text(self.announcements as i128).as_str());
        r.append(" rounds of announcements, ");
        r.append(text::int_text(self.connections as i128).as_str());
        r.append(" connections, ");
        r.append(text::int_text(self.dropped_first as i128).as_str());
        r.append(" first segments dropped, ");
        r.append(text::int_text(self.duplicate_acks as i128).as_str());
        r.append(" duplicate acknowledgements, ");
        r.append(text::int_text(self.replies_reversed as i128).as_str());
        r.append(" replies sent back to front, ");
        r.append(text::int_text(self.opened as i128).as_str());
        r.append(" connections opened, ");
        r.append(text::int_text(self.verdicts as i128).as_str());
        r.append(" verdicts sent, ");
        r.append(text::int_text(self.selective_acks as i128).as_str());
        r.append(" selective acknowledgements naming ");
        r.append(text::int_text(self.blocks_sent as i128).as_str());
        r.append(" runs, ");
        r.append(text::int_text(self.guest_blocks as i128).as_str());
        r.append(" acknowledgements with blocks of the guest's own, ");
        r.append(text::int_text(self.guest_retransmits as i128).as_str());
        r.append(" segments the guest sent again (");
        r.append(text::int_text(self.guest_retransmit_bytes as i128).as_str());
        r.append(" bytes), ");
        r.append(text::int_text(self.refusals as i128).as_str());
        r.append(" datagrams refused");
        r
    }
}

/// A connection this end opened, and how far through the exchange it has come.
pub struct Opened {
    /// The number the guest announced its listener with.
    pub tag: Vec<u8>,
    /// The guest answered the SYN, so the request has gone.
    pub established: bool,
    /// The verdict has gone, so nothing is owed but the close.
    pub judged: bool,
}

/// One connection, and what this end owes it.
pub struct Conn {
    pub guest_port: u16,
    /// This end's port: the service's for a connection that the guest opened, and one of this end's
    /// choosing for a connection that it opened itself.
    pub local_port: u16,
    /// The next sequence number that this end will send.
    pub snd_nxt: u32,
    /// Everything below this has arrived in order; what an acknowledgement names.
    pub rcv_nxt: u32,
    /// Segments that arrived past a hole, held until it fills.
    pub held: Vec<(u32, Vec<u8>)>,
    /// The first in-order data segment has been dropped, as every connection's is, once.
    pub dropped: bool,
    /// The request line, however many segments carried it.
    pub request: Vec<u8>,
    pub replied: bool,
    pub fin_sent: bool,
    /// The guest's own FIN has arrived and been acknowledged.
    pub fin_seen: bool,
    /// The guest offered selective acknowledgement, so blocks may be sent to it.
    pub sack_ok: bool,
    /// Frames that the last reply held back, sent when the guest next says anything.
    pub pending: Vec<Vec<u8>>,
    /// One past the highest byte of the guest's that this end has seen.
    pub seen_through: u32,
    /// Set when this end opened the connection into the guest's listener.
    pub opened: Option<Opened>,
}

/// The network, as far as the guest is concerned.
pub struct Peer {
    pub ports: NetPorts,
    /// Learned from the first frame that arrives; nothing can be addressed until it is known.
    pub guest_mac: Option<[u8; 6]>,
    /// Distinct for each datagram.
    pub ip_id: u16,
    /// Open connections, and those in the moments after a close.
    pub conns: Vec<Conn>,
    /// The listener numbers already connected to.
    pub tags: Vec<Vec<u8>>,
    /// The next port of this end's own choosing.
    pub next_local: u16,
    pub seen: Seen,
}

/// A connection that this end opened, with its number as a sequence.
pub ghost struct Visit {
    pub tag: Seq<u8>,
    pub established: bool,
    pub judged: bool,
}

/// A connection, with its bytes as sequences.
pub ghost struct Link {
    pub guest_port: u16,
    pub local_port: u16,
    pub snd_nxt: u32,
    pub rcv_nxt: u32,
    pub held: Seq<(u32, Seq<u8>)>,
    pub dropped: bool,
    pub request: Seq<u8>,
    pub replied: bool,
    pub fin_sent: bool,
    pub fin_seen: bool,
    pub sack_ok: bool,
    pub pending: Seq<Seq<u8>>,
    pub seen_through: u32,
    pub opened: Option<Visit>,
}

/// The network, with its bytes as sequences.
pub ghost struct Net {
    pub ports: NetPorts,
    pub guest_mac: Option<Seq<u8>>,
    pub ip_id: u16,
    pub conns: Seq<Link>,
    pub tags: Seq<Seq<u8>>,
    pub next_local: u16,
    pub seen: Seen,
}

/// Held segments, with their bytes as sequences.
pub open spec fn held_views(v: Seq<(u32, Vec<u8>)>) -> Seq<(u32, Seq<u8>)> {
    v.map_values(|h: (u32, Vec<u8>)| (h.0, h.1@))
}

impl View for Opened {
    type V = Visit;

    open spec fn view(&self) -> Visit {
        Visit { tag: self.tag@, established: self.established, judged: self.judged }
    }
}

impl View for Conn {
    type V = Link;

    open spec fn view(&self) -> Link {
        Link {
            guest_port: self.guest_port,
            local_port: self.local_port,
            snd_nxt: self.snd_nxt,
            rcv_nxt: self.rcv_nxt,
            held: held_views(self.held@),
            dropped: self.dropped,
            request: self.request@,
            replied: self.replied,
            fin_sent: self.fin_sent,
            fin_seen: self.fin_seen,
            sack_ok: self.sack_ok,
            pending: wire::frames(self.pending@),
            seen_through: self.seen_through,
            opened: match self.opened {
                Some(o) => Some(o@),
                None => None,
            },
        }
    }
}

/// Connections, with their bytes as sequences.
pub open spec fn links(v: Seq<Conn>) -> Seq<Link> {
    v.map_values(|c: Conn| c@)
}

impl View for Peer {
    type V = Net;

    open spec fn view(&self) -> Net {
        Net {
            ports: self.ports,
            guest_mac: match self.guest_mac {
                Some(m) => Some(m@),
                None => None,
            },
            ip_id: self.ip_id,
            conns: links(self.conns@),
            tags: wire::frames(self.tags@),
            next_local: self.next_local,
            seen: self.seen,
        }
    }
}

/// The IPv4 header of a packet that this end sends, without its checksum.
pub open spec fn bare_header(len: int, id: u16, proto: u8) -> Seq<u8> {
    seq![0x45u8, 0u8] + bytes::be16_bytes(len) + bytes::be16_bytes(id as int) + seq![0u8, 0u8, 64u8, proto, 0u8, 0u8]
        + GATEWAY@ + GUEST@
}

/// Bytes with a number written into a word of them.
pub open spec fn with_word(b: Seq<u8>, at: int, x: int) -> Seq<u8> {
    bytes::splice(b, at, bytes::be16_bytes(x))
}

/// The IPv4 header of a packet that this end sends.
pub open spec fn header(len: int, id: u16, proto: u8) -> Seq<u8> {
    let h = bare_header(len, id, proto);
    with_word(h, 10, wire::checksum(h))
}

/// A frame to the guest with a packet from the gateway.
#[verifier::opaque]
pub open spec fn packet_frame(mac: Seq<u8>, id: u16, proto: u8, body: Seq<u8>) -> Seq<u8> {
    mac + PEER_MAC@ + ETHERTYPE_IPV4@ + header(20 + body.len() as int, id, proto) + body
}

/// What a datagram's or a segment's checksum is computed over, beside its own bytes.
pub open spec fn pseudo_header(proto: u8, len: int) -> Seq<u8> {
    GATEWAY@ + GUEST@ + seq![0u8, proto] + bytes::be16_bytes(len)
}

/// A datagram without its checksum.
pub open spec fn bare_datagram(from: u16, to: u16, payload: Seq<u8>) -> Seq<u8> {
    bytes::be16_bytes(from as int) + bytes::be16_bytes(to as int) + bytes::be16_bytes(8 + payload.len() as int) + seq![
        0u8,
        0u8,
    ] + payload
}

/// A datagram. Zero means "not computed" to a receiver, so that a sum that comes out zero is sent
/// as all ones, which has the same value under one's-complement arithmetic.
#[verifier::opaque]
pub open spec fn datagram_body(from: u16, to: u16, payload: Seq<u8>) -> Seq<u8> {
    let b = bare_datagram(from, to, payload);
    let sum = wire::checksum(pseudo_header(PROTO_UDP, b.len() as int) + b);
    with_word(
        b,
        6,
        if sum == 0 {
            0xffff
        } else {
            sum
        },
    )
}

/// The first `n` runs of a selective acknowledgement, as bytes.
pub open spec fn block_bytes(blocks: Seq<(u32, u32)>, n: nat) -> Seq<u8>
    decreases n,
{
    if n == 0 {
        seq![]
    } else {
        block_bytes(blocks, (n - 1) as nat) + bytes::be32_bytes(blocks[n - 1].0 as int) + bytes::be32_bytes(
            blocks[n - 1].1 as int,
        )
    }
}

/// A segment's options: its size and the offer of selective acknowledgement on a SYN, and blocks on
/// everything else, each padded to a whole word.
pub open spec fn options(flags: u8, blocks: Seq<(u32, u32)>) -> Seq<u8> {
    if flagged(flags, TCP_SYN) {
        seq![TCP_OPT_MSS, 4u8, 0x05u8, 0xb4u8, TCP_OPT_NOP, TCP_OPT_NOP, TCP_OPT_SACK_PERMITTED, 2u8]
    } else if blocks.len() == 0 {
        seq![]
    } else {
        let n = if blocks.len() < SACK_BLOCKS {
            blocks.len()
        } else {
            SACK_BLOCKS as nat
        };
        seq![TCP_OPT_NOP, TCP_OPT_NOP, TCP_OPT_SACK, (2 + 8 * n) as u8] + block_bytes(blocks, n)
    }
}

/// A segment without its checksum.
pub open spec fn bare_segment(
    from: u16,
    to: u16,
    seq: u32,
    ack: u32,
    flags: u8,
    blocks: Seq<(u32, u32)>,
    payload: Seq<u8>,
) -> Seq<u8> {
    let opts = options(flags, blocks);
    bytes::be16_bytes(from as int) + bytes::be16_bytes(to as int) + bytes::be32_bytes(seq as int) + bytes::be32_bytes(
        ack as int,
    ) + seq![((20 + opts.len()) / 4 * 16) as u8, flags] + bytes::be16_bytes(PEER_WINDOW as int) + seq![
        0u8,
        0u8,
        0u8,
        0u8,
    ] + opts + payload
}

/// A segment. Its checksum is mandatory, so that a zero sum is sent as it comes.
#[verifier::opaque]
pub open spec fn segment_body(
    from: u16,
    to: u16,
    seq: u32,
    ack: u32,
    flags: u8,
    blocks: Seq<(u32, u32)>,
    payload: Seq<u8>,
) -> Seq<u8> {
    let b = bare_segment(from, to, seq, ack, flags, blocks, payload);
    with_word(b, 16, wire::checksum(pseudo_header(PROTO_TCP, b.len() as int) + b))
}

/// The next identifier.
pub open spec fn next_id(id: u16) -> u16 {
    ((id + 1) % 0x1_0000) as u16
}

/// What sending a packet comes to: nothing can be addressed before the guest has been heard from,
/// and a packet has to fit its own length.
pub open spec fn send(n: Net, proto: u8, body: Seq<u8>) -> (Net, Seq<Seq<u8>>) {
    match n.guest_mac {
        Some(mac) if 20 + body.len() <= 0xffff => (
            Net { ip_id: next_id(n.ip_id), ..n },
            seq![packet_frame(mac, next_id(n.ip_id), proto, body)],
        ),
        _ => (n, seq![]),
    }
}

/// What sending a datagram comes to.
pub open spec fn send_datagram(n: Net, from: u16, to: u16, payload: Seq<u8>) -> (Net, Seq<Seq<u8>>) {
    send(n, PROTO_UDP, datagram_body(from, to, payload))
}

/// What sending a segment with selective blocks comes to.
#[verifier::opaque]
pub open spec fn send_blocks(
    n: Net,
    from: u16,
    to: u16,
    seq: u32,
    ack: u32,
    flags: u8,
    blocks: Seq<(u32, u32)>,
    payload: Seq<u8>,
) -> (Net, Seq<Seq<u8>>) {
    send(n, PROTO_TCP, segment_body(from, to, seq, ack, flags, blocks, payload))
}

/// What sending a segment comes to.
pub open spec fn send_segment(n: Net, from: u16, to: u16, seq: u32, ack: u32, flags: u8, payload: Seq<u8>) -> (
    Net,
    Seq<Seq<u8>>,
) {
    send_blocks(n, from, to, seq, ack, flags, seq![], payload)
}

/// A frame, or none, as a list.
pub open spec fn one(f: Option<Vec<u8>>) -> Seq<Seq<u8>> {
    match f {
        Some(f) => seq![f@],
        None => seq![],
    }
}

fn listed(f: Option<Vec<u8>>) -> (r: Vec<Vec<u8>>)
    ensures
        wire::frames(r@) == one(f),
{
    let mut r: Vec<Vec<u8>> = Vec::new();
    if let Some(f) = f {
        r.push(f);
    }
    assert(wire::frames(r@) =~= one(f));
    r
}

fn push_frames(v: &mut Vec<Vec<u8>>, more: Vec<Vec<u8>>)
    ensures
        wire::frames(final(v)@) == wire::frames(old(v)@) + wire::frames(more@),
{
    let mut more = more;
    let ghost all = more@;
    let ghost front = v@;
    v.append(&mut more);
    assert(wire::frames(v@) =~= wire::frames(front) + wire::frames(all));
}

fn push_header(f: &mut Vec<u8>, len: u16, id: u16, proto: u8)
    ensures
        final(f)@ == old(f)@ + header(len as int, id, proto),
{
    let mut h: Vec<u8> = Vec::new();
    h.push(0x45);
    h.push(0);
    assert(h@ =~= seq![0x45u8, 0u8]);
    bytes::push_be16(&mut h, len);
    bytes::push_be16(&mut h, id);
    let ghost front = h@;
    h.push(0);
    h.push(0);
    h.push(64);
    h.push(proto);
    h.push(0);
    h.push(0);
    assert(h@ =~= front + seq![0u8, 0u8, 64u8, proto, 0u8, 0u8]);
    bytes::push_all(&mut h, GATEWAY.as_slice());
    bytes::push_all(&mut h, GUEST.as_slice());
    let sum: u16 = wire::ipv4_checksum(h.as_slice());
    bytes::put_be16(&mut h, 10, sum);
    bytes::push_all(f, h.as_slice());
}

fn make_frame(mac: &[u8; 6], id: u16, proto: u8, body: &[u8]) -> (r: Vec<u8>)
    requires
        20 + body@.len() <= 0xffff,
    ensures
        r@ == packet_frame(mac@, id, proto, body@),
{
    reveal(packet_frame);
    let mut f: Vec<u8> = Vec::new();
    bytes::push_all(&mut f, mac.as_slice());
    assert(f@ =~= mac@);
    bytes::push_all(&mut f, PEER_MAC.as_slice());
    bytes::push_all(&mut f, ETHERTYPE_IPV4.as_slice());
    push_header(&mut f, (20 + body.len()) as u16, id, proto);
    bytes::push_all(&mut f, body);
    f
}

fn pseudo_sum(proto: u8, body: &[u8]) -> (r: u16)
    ensures
        r == wire::checksum(pseudo_header(proto, body@.len() as int) + body@),
{
    let mut all: Vec<u8> = Vec::new();
    bytes::push_all(&mut all, GATEWAY.as_slice());
    assert(all@ =~= GATEWAY@);
    bytes::push_all(&mut all, GUEST.as_slice());
    let ghost front = all@;
    all.push(0);
    all.push(proto);
    assert(all@ =~= front + seq![0u8, proto]);
    proof {
        wire::short_bytes(body@.len() as int);
    }
    bytes::push_be16(&mut all, (body.len() % 0x1_0000) as u16);
    bytes::push_all(&mut all, body);
    wire::ipv4_checksum(all.as_slice())
}

fn make_datagram(from: u16, to: u16, payload: &[u8]) -> (r: Vec<u8>)
    requires
        28 + payload@.len() <= 0xffff,
    ensures
        r@ == datagram_body(from, to, payload@),
{
    reveal(datagram_body);
    let mut b: Vec<u8> = Vec::new();
    bytes::push_be16(&mut b, from);
    assert(b@ =~= bytes::be16_bytes(from as int));
    bytes::push_be16(&mut b, to);
    bytes::push_be16(&mut b, (8 + payload.len()) as u16);
    let ghost front = b@;
    b.push(0);
    b.push(0);
    assert(b@ =~= front + seq![0u8, 0u8]);
    bytes::push_all(&mut b, payload);
    let sum: u16 = pseudo_sum(PROTO_UDP, b.as_slice());
    bytes::put_be16(
        &mut b,
        6,
        if sum == 0 {
            0xffff
        } else {
            sum
        },
    );
    b
}

fn make_options(flags: u8, blocks: &Vec<(u32, u32)>) -> (r: Vec<u8>)
    ensures
        r@ == options(flags, blocks@),
        r@.len() <= 28,
        r@.len() % 4 == 0,
{
    let mut o: Vec<u8> = Vec::new();
    if flags / TCP_SYN % 2 == 1 {
        o.push(TCP_OPT_MSS);
        o.push(4);
        o.push(0x05);
        o.push(0xb4);
        o.push(TCP_OPT_NOP);
        o.push(TCP_OPT_NOP);
        o.push(TCP_OPT_SACK_PERMITTED);
        o.push(2);
        assert(o@ =~= options(flags, blocks@));
        return o;
    }
    if blocks.len() == 0 {
        assert(o@ =~= options(flags, blocks@));
        return o;
    }
    let n: usize = if blocks.len() < SACK_BLOCKS {
        blocks.len()
    } else {
        SACK_BLOCKS
    };
    o.push(TCP_OPT_NOP);
    o.push(TCP_OPT_NOP);
    o.push(TCP_OPT_SACK);
    o.push((2 + 8 * n) as u8);
    let ghost front = o@;
    assert(front =~= seq![TCP_OPT_NOP, TCP_OPT_NOP, TCP_OPT_SACK, (2 + 8 * n) as u8]);
    let mut i: usize = 0;
    assert(o@ =~= front + block_bytes(blocks@, 0));
    while i < n
        invariant
            i <= n <= blocks@.len(),
            n <= 3,
            front.len() == 4,
            o@ == front + block_bytes(blocks@, i as nat),
            o@.len() == 4 + 8 * i,
        decreases n - i,
    {
        bytes::push_be32(&mut o, blocks[i].0);
        bytes::push_be32(&mut o, blocks[i].1);
        assert(o@ =~= front + block_bytes(blocks@, (i + 1) as nat));
        i += 1;
    }
    o
}

/// What a segment is made of.
pub struct Out {
    pub from: u16,
    pub to: u16,
    pub seq: u32,
    pub ack: u32,
    pub flags: u8,
}

fn make_segment(s: &Out, blocks: &Vec<(u32, u32)>, payload: &[u8]) -> (r: Vec<u8>)
    ensures
        r@ == segment_body(s.from, s.to, s.seq, s.ack, s.flags, blocks@, payload@),
{
    reveal(segment_body);
    let opts = make_options(s.flags, blocks);
    let mut b: Vec<u8> = Vec::new();
    bytes::push_be16(&mut b, s.from);
    assert(b@ =~= bytes::be16_bytes(s.from as int));
    bytes::push_be16(&mut b, s.to);
    bytes::push_be32(&mut b, s.seq);
    bytes::push_be32(&mut b, s.ack);
    let ghost front = b@;
    b.push(((20 + opts.len()) / 4 * 16) as u8);
    b.push(s.flags);
    assert(b@ =~= front + seq![((20 + opts@.len()) / 4 * 16) as u8, s.flags]);
    bytes::push_be16(&mut b, PEER_WINDOW);
    let ghost front = b@;
    b.push(0);
    b.push(0);
    b.push(0);
    b.push(0);
    assert(b@ =~= front + seq![0u8, 0u8, 0u8, 0u8]);
    bytes::push_all(&mut b, opts.as_slice());
    bytes::push_all(&mut b, payload);
    let sum: u16 = pseudo_sum(PROTO_TCP, b.as_slice());
    bytes::put_be16(&mut b, 16, sum);
    b
}

impl Peer {
    /// The network before anything has crossed it.
    pub fn new(ports: NetPorts) -> (r: Peer)
        ensures
            r@.ports == ports,
            r@.guest_mac == None::<Seq<u8>>,
            r@.ip_id == 1,
            r@.conns.len() == 0,
            r@.tags.len() == 0,
            r@.next_local == FIRST_LOCAL_PORT,
            r@.seen == nothing_seen(),
            room(r@.seen),
    {
        Peer {
            ports,
            guest_mac: None,
            ip_id: 1,
            conns: Vec::new(),
            tags: Vec::new(),
            next_local: FIRST_LOCAL_PORT,
            seen: Seen::new(),
        }
    }

    /// Whether the announcements are to go out: once the guest is known, and every so often. `since`
    /// is how long ago they last went, in milliseconds.
    pub fn is_due(&self, since: Option<u64>) -> (r: bool)
        ensures
            r == (self@.guest_mac is Some && match since {
                Some(ms) => ms >= ANNOUNCE_EVERY,
                None => true,
            }),
    {
        self.guest_mac.is_some() && match since {
            Some(ms) => ms >= ANNOUNCE_EVERY,
            None => true,
        }
    }

    fn packet(&mut self, proto: u8, body: &[u8]) -> (r: Option<Vec<u8>>)
        ensures
            (final(self)@, one(r)) == send(old(self)@, proto, body@),
            final(self).conns@ == old(self).conns@,
    {
        let mac = match self.guest_mac {
            Some(m) => m,
            None => return None,
        };
        if body.len() > 0xffff - 20 {
            return None;
        }
        self.ip_id = if self.ip_id == 0xffff {
            0
        } else {
            self.ip_id + 1
        };
        let f = make_frame(&mac, self.ip_id, proto, body);
        Some(f)
    }

    /// One datagram to the guest, from the gateway, with both checksums.
    pub fn udp_frame(&mut self, from: u16, to: u16, payload: &[u8]) -> (r: Option<Vec<u8>>)
        ensures
            (final(self)@, one(r)) == send_datagram(old(self)@, from, to, payload@),
            final(self)@ == (Net { ip_id: final(self)@.ip_id, ..old(self)@ }),
    {
        if payload.len() > 0xffff - 28 {
            reveal(datagram_body);
            assert(datagram_body(from, to, payload@).len() == 8 + payload@.len());
            return None;
        }
        let body = make_datagram(from, to, payload);
        self.packet(PROTO_UDP, body.as_slice())
    }

    /// One segment to the guest, naming `blocks` as a selective acknowledgement.
    fn tcp_frame_with(&mut self, s: &Out, blocks: &Vec<(u32, u32)>, payload: &[u8]) -> (r: Option<Vec<u8>>)
        ensures
            (final(self)@, one(r)) == send_blocks(
                old(self)@,
                s.from,
                s.to,
                s.seq,
                s.ack,
                s.flags,
                blocks@,
                payload@,
            ),
            final(self)@ == (Net { ip_id: final(self)@.ip_id, ..old(self)@ }),
            final(self).conns@.len() == old(self).conns@.len(),
    {
        reveal(send_blocks);
        let body = make_segment(s, blocks, payload);
        self.packet(PROTO_TCP, body.as_slice())
    }

    /// One segment to the guest, with both checksums.
    fn tcp_frame(&mut self, from: u16, to: u16, seq: u32, ack: u32, flags: u8, payload: &[u8]) -> (r: Option<Vec<u8>>)
        ensures
            (final(self)@, one(r)) == send_segment(old(self)@, from, to, seq, ack, flags, payload@),
            final(self)@ == (Net { ip_id: final(self)@.ip_id, ..old(self)@ }),
            final(self).conns@.len() == old(self).conns@.len(),
    {
        let none: Vec<(u32, u32)> = Vec::new();
        assert(none@ =~= seq![]);
        self.tcp_frame_with(&Out { from, to, seq, ack, flags }, &none, payload)
    }

    /// One segment without data.
    fn bare_frame(&mut self, from: u16, to: u16, seq: u32, ack: u32, flags: u8) -> (r: Option<Vec<u8>>)
        ensures
            (final(self)@, one(r)) == send_segment(old(self)@, from, to, seq, ack, flags, seq![]),
            final(self)@ == (Net { ip_id: final(self)@.ip_id, ..old(self)@ }),
            final(self).conns@.len() == old(self).conns@.len(),
    {
        let none: Vec<u8> = Vec::new();
        assert(none@ =~= seq![]);
        self.tcp_frame(from, to, seq, ack, flags, none.as_slice())
    }

    /// One segment without data, naming `blocks` as a selective acknowledgement.
    fn ack_frame(&mut self, s: &Out, blocks: &Vec<(u32, u32)>) -> (r: Option<Vec<u8>>)
        ensures
            (final(self)@, one(r)) == send_blocks(
                old(self)@,
                s.from,
                s.to,
                s.seq,
                s.ack,
                s.flags,
                blocks@,
                seq![],
            ),
            final(self)@ == (Net { ip_id: final(self)@.ip_id, ..old(self)@ }),
            final(self).conns@.len() == old(self).conns@.len(),
    {
        let none: Vec<u8> = Vec::new();
        assert(none@ =~= seq![]);
        self.tcp_frame_with(s, blocks, none.as_slice())
    }
}

/// Whether a frame is an ARP request.
pub open spec fn asks(f: Seq<u8>) -> bool {
    f.len() >= 42 && bytes::be16(f, 20) == ARP_REQUEST
}

/// Whether a frame is an ARP request for the gateway.
pub open spec fn asks_for_gateway(f: Seq<u8>) -> bool {
    asks(f) && f.subrange(38, 42) == GATEWAY@
}

/// The ARP reply to the one who asked.
pub open spec fn arp_answer(f: Seq<u8>) -> Seq<u8> {
    f.subrange(22, 28) + PEER_MAC@ + ETHERTYPE_ARP@ + seq![0u8, 1u8, 0x08u8, 0u8, 6u8, 4u8] + bytes::be16_bytes(
        ARP_REPLY as int,
    ) + PEER_MAC@ + GATEWAY@ + f.subrange(22, 28) + f.subrange(28, 32)
}

/// What an ARP frame leads to: a request is counted, and answered if it is for the gateway.
pub open spec fn hear_arp(n: Net, f: Seq<u8>) -> (Net, Seq<Seq<u8>>) {
    (
        if asks(f) {
            Net { seen: Seen { arp_requests: (n.seen.arp_requests + 1) as u64, ..n.seen }, ..n }
        } else {
            n
        },
        if asks_for_gateway(f) {
            seq![arp_answer(f)]
        } else {
            seq![]
        },
    )
}

/// Whether a frame's packet is addressed to the gateway.
pub open spec fn for_gateway(f: Seq<u8>) -> bool {
    f.subrange(30, 34) == GATEWAY@
}

/// An ICMP message with its checksum written into it.
pub open spec fn icmp_summed(b: Seq<u8>) -> Seq<u8> {
    let z = bytes::splice(b, 2, bytes::zeros(2));
    with_word(z, 2, wire::checksum(z))
}

/// The header of an echo reply: the request's, back the way it came, with a fresh hop count.
pub open spec fn echo_header(h: Seq<u8>) -> Seq<u8> {
    let back = bytes::splice(h.update(8, 64u8), 12, GATEWAY@ + h.subrange(12, 16));
    let z = bytes::splice(back, 10, bytes::zeros(2));
    with_word(z, 10, wire::checksum(z))
}

/// The echo reply for an echo request addressed to the gateway, which echoes the whole of the
/// request's body. A message too short to hold a checksum is not answered.
pub open spec fn echo_answer(mac: Option<Seq<u8>>, f: Seq<u8>) -> Option<Seq<u8>> {
    match (wire::packet(f), mac) {
        (Some((ihl, total)), Some(m)) if for_gateway(f) && f[14 + ihl] == ICMP_ECHO_REQUEST && ihl + 4 <= total => Some(
            m + PEER_MAC@ + ETHERTYPE_IPV4@ + echo_header(f.subrange(14, 14 + ihl)) + icmp_summed(
                f.subrange(14 + ihl, 14 + total).update(0, ICMP_ECHO_REPLY),
            ),
        ),
        _ => None,
    }
}

/// The ports and the payload of a datagram addressed to the gateway.
pub open spec fn datagram_in(f: Seq<u8>) -> Option<(int, int, Seq<u8>)> {
    match wire::packet(f) {
        Some((ihl, total)) if for_gateway(f) && ihl + 8 <= total => Some(
            (
                bytes::be16(f, 14 + ihl),
                bytes::be16(f, 14 + ihl + 2),
                f.subrange(14 + ihl + 8, 14 + total),
            ),
        ),
        _ => None,
    }
}

/// The destination-unreachable message for a datagram: it quotes the offending header and the eight
/// bytes behind it, which hold the ports, and those name the socket that the refusal belongs to.
pub open spec fn refusal(f: Seq<u8>, ihl: int) -> Seq<u8> {
    icmp_summed(
        seq![ICMP_UNREACHABLE, ICMP_PORT_UNREACHABLE, 0u8, 0u8, 0u8, 0u8, 0u8, 0u8] + f.subrange(14, 14 + ihl + 8),
    )
}

/// What refusing a datagram comes to.
pub open spec fn refuse(n: Net, f: Seq<u8>) -> (Net, Seq<Seq<u8>>) {
    match wire::packet(f) {
        Some((ihl, _)) if 14 + ihl + 8 <= f.len() => send(n, PROTO_ICMP, refusal(f, ihl)),
        _ => (n, seq![]),
    }
}

/// A connection in which nothing has been said yet.
pub open spec fn fresh(
    guest_port: u16,
    local_port: u16,
    snd_nxt: u32,
    rcv_nxt: u32,
    sack_ok: bool,
    opened: Option<Visit>,
) -> Link {
    Link {
        guest_port,
        local_port,
        snd_nxt,
        rcv_nxt,
        held: seq![],
        dropped: false,
        request: seq![],
        replied: false,
        fin_sent: false,
        fin_seen: false,
        sack_ok,
        pending: seq![],
        seen_through: rcv_nxt,
        opened,
    }
}

/// The first connection to a listener that has not answered yet.
pub open spec fn waiting(conns: Seq<Link>, tag: Seq<u8>, i: int) -> Option<int>
    decreases conns.len() - i,
{
    if i < 0 || i >= conns.len() {
        None
    } else {
        match conns[i].opened {
            Some(v) if v.tag == tag && !v.established => Some(i),
            _ => waiting(conns, tag, i + 1),
        }
    }
}

/// The port of this end's own behind another.
pub open spec fn port_after(p: u16) -> u16 {
    if p == 0xffff {
        FIRST_LOCAL_PORT
    } else {
        (p + 1) as u16
    }
}

/// What opening a connection into the guest's listener comes to. The initial sequence number is
/// distinct for each connection, so that a segment of one cannot be taken for another's.
pub open spec fn open_to(n: Net, tag: Seq<u8>) -> (Net, Seq<Seq<u8>>) {
    let local = n.next_local;
    let isn = plus(0x5000_0000, 0x100 * local);
    let link = fresh(
        NET_GUEST_TCP_PORT,
        local,
        plus(isn, 1),
        0,
        false,
        Some(Visit { tag, established: false, judged: false }),
    );
    send_segment(
        Net {
            next_local: port_after(local),
            conns: n.conns.push(link),
            seen: Seen { opened: (n.seen.opened + 1) as u64, ..n.seen },
            ..n
        },
        local,
        NET_GUEST_TCP_PORT,
        isn,
        0,
        TCP_SYN,
        seq![],
    )
}

/// What an announced listener leads to: a connection to it, once for each number. An announcement
/// whose connection has not finished its handshake is answered with the SYN again.
pub open spec fn hear_listener(n: Net, tag: Seq<u8>) -> (Net, Seq<Seq<u8>>) {
    match waiting(n.conns, tag, 0) {
        Some(i) => send_segment(
            n,
            n.conns[i].local_port,
            n.conns[i].guest_port,
            plus(n.conns[i].snd_nxt, -1),
            0,
            TCP_SYN,
            seq![],
        ),
        None => if n.tags.contains(tag) {
            (n, seq![])
        } else {
            open_to(Net { tags: n.tags.push(tag), ..n }, tag)
        },
    }
}

/// What a datagram leads to. Three ports matter: the one the announcements come from, where an echo
/// earns its acknowledgement and a listener its connection; the service's, where a request earns its
/// reply; and the quiet one, where everything is refused.
pub open spec fn hear_datagram(n: Net, f: Seq<u8>) -> (Net, Seq<Seq<u8>>) {
    match datagram_in(f) {
        None => (n, seq![]),
        Some((from, to, payload)) => {
            let echo = services::behind(payload, NET_ECHO@);
            let request = services::behind(payload, NET_UDP_REQUEST@);
            let tag = services::behind(payload, NET_TCP_LISTENING@);
            if to == n.ports.udp && echo is Some {
                send_datagram(
                    Net { seen: Seen { acks_sent: (n.seen.acks_sent + 1) as u64, ..n.seen }, ..n },
                    n.ports.udp,
                    from as u16,
                    NET_ACK@ + echo->Some_0,
                )
            } else if to == n.ports.udp_service && request is Some {
                send_datagram(
                    Net { seen: Seen { service_replies: (n.seen.service_replies + 1) as u64, ..n.seen }, ..n },
                    n.ports.udp_service,
                    from as u16,
                    NET_UDP_REPLY@ + request->Some_0,
                )
            } else if to == n.ports.udp && tag is Some {
                hear_listener(n, tag->Some_0)
            } else if to == n.ports.quiet {
                refuse(Net { seen: Seen { refusals: (n.seen.refusals + 1) as u64, ..n.seen }, ..n }, f)
            } else {
                (n, seq![])
            }
        },
    }
}

/// What sending the first `k` of some datagrams to the guest's check comes to.
pub open spec fn send_all(n: Net, payloads: Seq<Seq<u8>>, k: nat) -> (Net, Seq<Seq<u8>>)
    decreases k,
{
    if k == 0 {
        (n, seq![])
    } else {
        let (m, out) = send_all(n, payloads, (k - 1) as nat);
        let (last, more) = send_datagram(m, m.ports.udp, NET_GUEST_PORT, payloads[k - 1]);
        (last, out + more)
    }
}

/// What announcing comes to: four whole datagrams, and one that goes as two fragments.
pub open spec fn announced(n: Net) -> (Net, Seq<Seq<u8>>) {
    let payloads = services::sent(n.ports);
    let (m, out) = send_all(n, payloads, 4);
    let (last, whole) = send_datagram(m, m.ports.udp, NET_GUEST_PORT, payloads[4]);
    if whole.len() == 1 && wire::fragments(whole[0]) is Some {
        (last, out + wire::fragments(whole[0])->Some_0)
    } else {
        (last, out)
    }
}

fn sum_icmp(b: &mut Vec<u8>)
    requires
        old(b)@.len() >= 4,
    ensures
        final(b)@ == icmp_summed(old(b)@),
{
    let zero = bytes::zeroed(2);
    bytes::copy_at(b, 2, zero.as_slice());
    let sum: u16 = wire::ipv4_checksum(b.as_slice());
    bytes::put_be16(b, 2, sum);
}

fn make_echo_header(h: &[u8]) -> (r: Vec<u8>)
    requires
        h@.len() >= 20,
    ensures
        r@ == echo_header(h@),
{
    let mut b = bytes::copied(h, 0, h.len());
    assert(b@ =~= h@);
    let mut addresses: Vec<u8> = Vec::new();
    bytes::push_all(&mut addresses, GATEWAY.as_slice());
    assert(addresses@ =~= GATEWAY@);
    bytes::push_all(&mut addresses, slice_subrange(h, 12, 16));
    b.set(8, 64);
    bytes::copy_at(&mut b, 12, addresses.as_slice());
    let zero = bytes::zeroed(2);
    bytes::copy_at(&mut b, 10, zero.as_slice());
    let sum: u16 = wire::ipv4_checksum(b.as_slice());
    bytes::put_be16(&mut b, 10, sum);
    b
}

fn is_for_gateway(frame: &[u8]) -> (r: bool)
    requires
        frame@.len() >= 34,
    ensures
        r == for_gateway(frame@),
{
    bytes::same_bytes(slice_subrange(frame, 30, 34), GATEWAY.as_slice())
}

fn copy_of(b: &[u8]) -> (r: Vec<u8>)
    ensures
        r@ == b@,
{
    let r = bytes::copied(b, 0, b.len());
    assert(r@ =~= b@);
    r
}

/// The ports and the payload of a datagram addressed to the gateway.
fn datagram(frame: &[u8]) -> (r: Option<(u16, u16, Vec<u8>)>)
    ensures
        match r {
            Some(d) => datagram_in(frame@) == Some((d.0 as int, d.1 as int, d.2@)),
            None => datagram_in(frame@) == None::<(int, int, Seq<u8>)>,
        },
{
    let (ihl, total) = match wire::ipv4_header(frame) {
        Some(p) => p,
        None => return None,
    };
    if !is_for_gateway(frame) || ihl + 8 > total {
        return None;
    }
    let udp: usize = 14 + ihl;
    Some(
        (bytes::get_be16(frame, udp), bytes::get_be16(frame, udp + 2), bytes::copied(frame, udp + 8, 14 + total)),
    )
}

fn back_one(a: u32) -> (r: u32)
    ensures
        r == plus(a, -1),
{
    if a == 0 {
        assert((0 - 1int) % 0x1_0000_0000 == 0xffff_ffff);
        0xffff_ffff
    } else {
        a - 1
    }
}

fn new_conn(guest_port: u16, local_port: u16, snd_nxt: u32, rcv_nxt: u32, sack_ok: bool, opened: Option<Opened>) -> (r:
    Conn)
    ensures
        r@ == fresh(
            guest_port,
            local_port,
            snd_nxt,
            rcv_nxt,
            sack_ok,
            match opened {
                Some(o) => Some(o@),
                None => None,
            },
        ),
{
    let r = Conn {
        guest_port,
        local_port,
        snd_nxt,
        rcv_nxt,
        held: Vec::new(),
        dropped: false,
        request: Vec::new(),
        replied: false,
        fin_sent: false,
        fin_seen: false,
        sack_ok,
        pending: Vec::new(),
        seen_through: rcv_nxt,
        opened,
    };
    assert(r@.held =~= seq![]);
    assert(r@.request =~= seq![]);
    assert(r@.pending =~= seq![]);
    r
}

fn knows(tags: &Vec<Vec<u8>>, tag: &[u8]) -> (r: bool)
    ensures
        r == wire::frames(tags@).contains(tag@),
{
    let ghost all = wire::frames(tags@);
    let mut i: usize = 0;
    while i < tags.len()
        invariant
            i <= tags@.len(),
            all == wire::frames(tags@),
            forall|k: int| 0 <= k < i ==> #[trigger] all[k] != tag@,
        decreases tags@.len() - i,
    {
        assert(all[i as int] == tags@[i as int]@);
        if bytes::same_bytes(tags[i].as_slice(), tag) {
            assert(all.contains(tag@));
            return true;
        }
        i += 1;
    }
    assert(!all.contains(tag@));
    false
}

impl Peer {
    /// The ARP reply that a frame asks for, if it is a request for the gateway.
    pub fn arp_reply(&mut self, frame: &[u8]) -> (r: Option<Vec<u8>>)
        requires
            old(self).seen.arp_requests < u64::MAX,
        ensures
            (final(self)@, one(r)) == hear_arp(old(self)@, frame@),
    {
        if frame.len() < 42 || bytes::get_be16(frame, 20) != ARP_REQUEST {
            return None;
        }
        self.seen.arp_requests = self.seen.arp_requests + 1;
        if !bytes::same_bytes(slice_subrange(frame, 38, 42), GATEWAY.as_slice()) {
            return None;
        }
        let mut out = bytes::copied(frame, 22, 28);
        bytes::push_all(&mut out, PEER_MAC.as_slice());
        bytes::push_all(&mut out, ETHERTYPE_ARP.as_slice());
        let ghost front = out@;
        out.push(0);
        out.push(1);
        out.push(0x08);
        out.push(0);
        out.push(6);
        out.push(4);
        assert(out@ =~= front + seq![0u8, 1u8, 0x08u8, 0u8, 6u8, 4u8]);
        bytes::push_be16(&mut out, ARP_REPLY);
        bytes::push_all(&mut out, PEER_MAC.as_slice());
        bytes::push_all(&mut out, GATEWAY.as_slice());
        bytes::push_all(&mut out, slice_subrange(frame, 22, 28));
        bytes::push_all(&mut out, slice_subrange(frame, 28, 32));
        Some(out)
    }

    /// The echo reply for an echo request addressed to the gateway.
    pub fn echo_reply(&self, frame: &[u8]) -> (r: Option<Vec<u8>>)
        ensures
            match r {
                Some(f) => echo_answer(self@.guest_mac, frame@) == Some(f@),
                None => echo_answer(self@.guest_mac, frame@) == None::<Seq<u8>>,
            },
    {
        let (ihl, total) = match wire::ipv4_header(frame) {
            Some(p) => p,
            None => return None,
        };
        if !is_for_gateway(frame) || frame[14 + ihl] != ICMP_ECHO_REQUEST || ihl + 4 > total {
            return None;
        }
        let mac = match self.guest_mac {
            Some(m) => m,
            None => return None,
        };
        let mut f: Vec<u8> = Vec::new();
        bytes::push_all(&mut f, mac.as_slice());
        assert(f@ =~= mac@);
        bytes::push_all(&mut f, PEER_MAC.as_slice());
        bytes::push_all(&mut f, ETHERTYPE_IPV4.as_slice());
        bytes::push_all(&mut f, make_echo_header(slice_subrange(frame, 14, 14 + ihl)).as_slice());
        let mut body = bytes::copied(frame, 14 + ihl, 14 + total);
        body.set(0, ICMP_ECHO_REPLY);
        sum_icmp(&mut body);
        bytes::push_all(&mut f, body.as_slice());
        Some(f)
    }

    /// The destination-unreachable message for a datagram.
    fn unreachable(&mut self, frame: &[u8]) -> (r: Option<Vec<u8>>)
        ensures
            (final(self)@, one(r)) == refuse(old(self)@, frame@),
    {
        let (ihl, _) = match wire::ipv4_header(frame) {
            Some(p) => p,
            None => return None,
        };
        if 14 + ihl + 8 > frame.len() {
            return None;
        }
        let mut body: Vec<u8> = Vec::new();
        body.push(ICMP_UNREACHABLE);
        body.push(ICMP_PORT_UNREACHABLE);
        body.push(0);
        body.push(0);
        body.push(0);
        body.push(0);
        body.push(0);
        body.push(0);
        assert(body@ =~= seq![ICMP_UNREACHABLE, ICMP_PORT_UNREACHABLE, 0u8, 0u8, 0u8, 0u8, 0u8, 0u8]);
        bytes::push_all(&mut body, slice_subrange(frame, 14, 14 + ihl + 8));
        sum_icmp(&mut body);
        self.packet(PROTO_ICMP, body.as_slice())
    }

    fn find_waiting(&self, tag: &[u8]) -> (r: Option<usize>)
        ensures
            match r {
                Some(i) => i < self.conns@.len() && waiting(self@.conns, tag@, 0) == Some(i as int),
                None => waiting(self@.conns, tag@, 0) == None::<int>,
            },
    {
        let ghost all = self@.conns;
        let mut i: usize = 0;
        while i < self.conns.len()
            invariant
                i <= self.conns@.len(),
                all == links(self.conns@),
                waiting(all, tag@, 0) == waiting(all, tag@, i as int),
            decreases self.conns@.len() - i,
        {
            assert(all[i as int] == self.conns@[i as int]@);
            if let Some(o) = &self.conns[i].opened {
                if !o.established && bytes::same_bytes(o.tag.as_slice(), tag) {
                    return Some(i);
                }
            }
            i += 1;
        }
        None
    }

    /// A listener that the guest has announced: open a connection to it, once for each number.
    fn listening(&mut self, tag: &[u8]) -> (r: Vec<Vec<u8>>)
        requires
            old(self).seen.opened < u64::MAX,
        ensures
            (final(self)@, wire::frames(r@)) == hear_listener(old(self)@, tag@),
    {
        if let Some(i) = self.find_waiting(tag) {
            assert(self@.conns[i as int] == self.conns@[i as int]@);
            let (local, port, snd) = (
                self.conns[i].local_port,
                self.conns[i].guest_port,
                back_one(self.conns[i].snd_nxt),
            );
            assert(Seq::<u8>::empty() =~= seq![]);
            let f = self.bare_frame(local, port, snd, 0, TCP_SYN);
            return listed(f);
        }
        if knows(&self.tags, tag) {
            let none: Vec<Vec<u8>> = Vec::new();
            assert(wire::frames(none@) =~= seq![]);
            return none;
        }
        let ghost before = self@;
        self.tags.push(copy_of(tag));
        assert(self@.tags =~= before.tags.push(tag@));
        self.open(tag)
    }

    /// Open a connection into the guest's listener: the SYN, and the state to answer it with.
    fn open(&mut self, tag: &[u8]) -> (r: Vec<Vec<u8>>)
        requires
            old(self).seen.opened < u64::MAX,
        ensures
            (final(self)@, wire::frames(r@)) == open_to(old(self)@, tag@),
    {
        let ghost before = self@;
        let local: u16 = self.next_local;
        self.next_local = if local == 0xffff {
            FIRST_LOCAL_PORT
        } else {
            local + 1
        };
        let isn: u32 = further(0x5000_0000, 0x100 * local as usize);
        let opened = Opened { tag: copy_of(tag), established: false, judged: false };
        let c = new_conn(NET_GUEST_TCP_PORT, local, further(isn, 1), 0, false, Some(opened));
        let ghost link = c@;
        self.conns.push(c);
        assert(self@.conns =~= before.conns.push(link));
        self.seen.opened = self.seen.opened + 1;
        let f = self.bare_frame(local, NET_GUEST_TCP_PORT, isn, 0, TCP_SYN);
        listed(f)
    }

    /// The answer to a datagram, if it is one that this end answers.
    pub fn udp(&mut self, frame: &[u8]) -> (r: Vec<Vec<u8>>)
        requires
            room(old(self).seen),
        ensures
            (final(self)@, wire::frames(r@)) == hear_datagram(old(self)@, frame@),
    {
        let none: Vec<Vec<u8>> = Vec::new();
        assert(wire::frames(none@) =~= seq![]);
        let (from, to, payload) = match datagram(frame) {
            Some(d) => d,
            None => return none,
        };
        let p = payload.as_slice();
        if to == self.ports.udp {
            if let Some(number) = bytes::strip_prefix(p, NET_ECHO.as_slice()) {
                self.seen.acks_sent = self.seen.acks_sent + 1;
                let ack = services::joined2(NET_ACK.as_slice(), number.as_slice());
                let f = self.udp_frame(self.ports.udp, from, ack.as_slice());
                return listed(f);
            }
        }
        if to == self.ports.udp_service {
            if let Some(tag) = bytes::strip_prefix(p, NET_UDP_REQUEST.as_slice()) {
                self.seen.service_replies = self.seen.service_replies + 1;
                let reply = services::joined2(NET_UDP_REPLY.as_slice(), tag.as_slice());
                let f = self.udp_frame(self.ports.udp_service, from, reply.as_slice());
                return listed(f);
            }
        }
        if to == self.ports.udp {
            if let Some(tag) = bytes::strip_prefix(p, NET_TCP_LISTENING.as_slice()) {
                return self.listening(tag.as_slice());
            }
        }
        if to == self.ports.quiet {
            self.seen.refusals = self.seen.refusals + 1;
            let f = self.unreachable(frame);
            return listed(f);
        }
        none
    }

    /// The datagrams that the guest cannot learn any other way, the last of them as two fragments.
    pub fn announcements(&mut self) -> (r: Vec<Vec<u8>>)
        ensures
            (final(self)@, wire::frames(r@)) == announced(old(self)@),
    {
        let payloads = services::announcements(&self.ports);
        let ghost all = services::sent(self.ports);
        let ghost before = self@;
        let mut out: Vec<Vec<u8>> = Vec::new();
        assert(wire::frames(out@) =~= seq![]);
        let mut k: usize = 0;
        while k < 4
            invariant
                k <= 4,
                wire::frames(payloads@) == all,
                all.len() == 5,
                (self@, wire::frames(out@)) == send_all(before, all, k as nat),
            decreases 4 - k,
        {
            assert(all[k as int] == payloads@[k as int]@);
            let f = self.udp_frame(self.ports.udp, NET_GUEST_PORT, payloads[k].as_slice());
            push_frames(&mut out, listed(f));
            k += 1;
        }
        assert(all[4] == payloads@[4]@);
        if let Some(whole) = self.udp_frame(self.ports.udp, NET_GUEST_PORT, payloads[4].as_slice()) {
            if let Some(pieces) = wire::fragment_datagram(whole.as_slice()) {
                push_frames(&mut out, pieces);
            }
        }
        out
    }
}

/// Whether a segment's options offer selective acknowledgement, and how many blocks they carry,
/// from an option on. Every option's length is held against the bytes there are before it is
/// stepped over, so that a malformed one ends the walk.
pub open spec fn options_from(o: Seq<u8>, at: int, permitted: bool, blocks: int) -> (bool, int)
    decreases o.len() - at,
{
    if at < 0 || at >= o.len() || o[at] == TCP_OPT_END {
        (permitted, blocks)
    } else if o[at] == TCP_OPT_NOP {
        options_from(o, at + 1, permitted, blocks)
    } else if at + 1 >= o.len() || o[at + 1] < 2 || at + o[at + 1] > o.len() {
        (permitted, blocks)
    } else {
        let n = o[at + 1] as int;
        options_from(
            o,
            at + n,
            permitted || (o[at] == TCP_OPT_SACK_PERMITTED && n == 2),
            if o[at] == TCP_OPT_SACK && n >= 10 && (n - 2) % 8 == 0 {
                (n - 2) / 8
            } else {
                blocks
            },
        )
    }
}

/// Whether a segment's options offer selective acknowledgement, and how many selective blocks they
/// carry.
pub fn tcp_options(opts: &[u8]) -> (r: (bool, usize))
    ensures
        (r.0, r.1 as int) == options_from(opts@, 0, false, 0),
{
    let ghost len = opts.len();
    let mut permitted = false;
    let mut blocks: usize = 0;
    let mut at: usize = 0;
    while at < opts.len()
        invariant
            at <= opts@.len() == len,
            options_from(opts@, at as int, permitted, blocks as int) == options_from(opts@, 0, false, 0),
        decreases opts@.len() - at,
    {
        let kind: u8 = opts[at];
        if kind == TCP_OPT_END {
            return (permitted, blocks);
        }
        if kind == TCP_OPT_NOP {
            at += 1;
        } else {
            if at + 1 >= opts.len() {
                return (permitted, blocks);
            }
            let n: usize = opts[at + 1] as usize;
            if n < 2 || n > opts.len() - at {
                return (permitted, blocks);
            }
            if kind == TCP_OPT_SACK_PERMITTED && n == 2 {
                permitted = true;
            }
            if kind == TCP_OPT_SACK && n >= 10 && (n - 2) % 8 == 0 {
                blocks = (n - 2) / 8;
            }
            at += n;
        }
    }
    (permitted, blocks)
}

/// One segment, parsed far enough to drive a connection.
pub struct Segment {
    pub guest_port: u16,
    pub local_port: u16,
    pub seq: u32,
    pub ack: u32,
    pub flags: u8,
    /// The guest offered selective acknowledgement on this SYN.
    pub sack_permitted: bool,
    /// Runs that the guest says it holds past its own hole.
    pub blocks: usize,
    pub payload: Vec<u8>,
}

/// A segment, with its bytes as a sequence.
pub ghost struct Told {
    pub guest_port: int,
    pub local_port: int,
    pub seq: int,
    pub ack: int,
    pub flags: u8,
    pub sack_permitted: bool,
    pub blocks: int,
    pub payload: Seq<u8>,
}

impl View for Segment {
    type V = Told;

    open spec fn view(&self) -> Told {
        Told {
            guest_port: self.guest_port as int,
            local_port: self.local_port as int,
            seq: self.seq as int,
            ack: self.ack as int,
            flags: self.flags,
            sack_permitted: self.sack_permitted,
            blocks: self.blocks as int,
            payload: self.payload@,
        }
    }
}

/// Whether a port is this end's: the service's, or that of a connection it opened.
pub open spec fn is_ours(n: Net, port: int) -> bool {
    port == n.ports.tcp || exists|k: int| 0 <= k < n.conns.len() && (#[trigger] n.conns[k]).local_port == port
}

/// The parts of a segment that is addressed to the service or to a connection this end opened.
pub open spec fn segment_in(n: Net, f: Seq<u8>) -> Option<Told> {
    match wire::packet(f) {
        None => None,
        Some((ihl, total)) => {
            let at = 14 + ihl;
            let header = wire::tcp_header(f, ihl);
            if for_gateway(f) && at + 20 <= f.len() && is_ours(n, bytes::be16(f, at + 2)) && header >= 20 && at + header
                <= f.len() && ihl + header <= total {
                let (permitted, blocks) = options_from(f.subrange(at + 20, at + header), 0, false, 0);
                Some(
                    Told {
                        guest_port: bytes::be16(f, at),
                        local_port: bytes::be16(f, at + 2),
                        seq: bytes::be32(f, at + 4),
                        ack: bytes::be32(f, at + 8),
                        flags: f[at + 13],
                        sack_permitted: permitted,
                        blocks,
                        payload: f.subrange(at + header, 14 + total),
                    },
                )
            } else {
                None
            }
        },
    }
}

/// The first connection between two ports.
pub open spec fn between(conns: Seq<Link>, guest: int, local: int, i: int) -> Option<int>
    decreases conns.len() - i,
{
    if i < 0 || i >= conns.len() {
        None
    } else if conns[i].guest_port == guest && conns[i].local_port == local {
        Some(i)
    } else {
        between(conns, guest, local, i + 1)
    }
}

/// The first connection with a guest port.
pub open spec fn from_guest(conns: Seq<Link>, guest: int, i: int) -> Option<int>
    decreases conns.len() - i,
{
    if i < 0 || i >= conns.len() {
        None
    } else if conns[i].guest_port == guest {
        Some(i)
    } else {
        from_guest(conns, guest, i + 1)
    }
}

/// The first `k` connections but those between two ports.
pub open spec fn others(conns: Seq<Link>, guest: int, local: int, k: nat) -> Seq<Link>
    decreases k,
{
    if k == 0 {
        seq![]
    } else if conns[k - 1].guest_port == guest && conns[k - 1].local_port == local {
        others(conns, guest, local, (k - 1) as nat)
    } else {
        others(conns, guest, local, (k - 1) as nat).push(conns[k - 1])
    }
}

/// What forgetting the connections between two ports comes to.
pub open spec fn forget(n: Net, guest: int, local: int) -> Net {
    Net { conns: others(n.conns, guest, local, n.conns.len()), ..n }
}

/// The network with another state of one connection.
pub open spec fn with_link(n: Net, i: int, c: Link) -> Net {
    Net { conns: n.conns.update(i, c), ..n }
}

/// What a SYN leads to: the handshake. A SYN for a connection already open is the guest sending it
/// again, so that the same answer goes back.
pub open spec fn accept_from(n: Net, guest: u16, seq: u32, sack_ok: bool) -> (Net, Seq<Seq<u8>>) {
    match from_guest(n.conns, guest as int, 0) {
        Some(i) => send_segment(
            n,
            n.conns[i].local_port,
            guest,
            plus(n.conns[i].snd_nxt, -1),
            n.conns[i].rcv_nxt,
            TCP_ACCEPT,
            seq![],
        ),
        None => {
            let isn = plus(0x2000_0000, 0x100 * guest);
            let link = fresh(guest, n.ports.tcp, plus(isn, 1), plus(seq, 1), sack_ok, None);
            send_segment(
                Net {
                    conns: n.conns.push(link),
                    seen: Seen { connections: (n.seen.connections + 1) as u64, ..n.seen },
                    ..n
                },
                n.ports.tcp,
                guest,
                isn,
                plus(seq, 1),
                TCP_ACCEPT,
                seq![],
            )
        },
    }
}

/// What the answer to a SYN of this end's leads to: the handshake finishes, and the request goes.
pub open spec fn establish(n: Net, i: int, seq: u32, sack_ok: bool) -> (Net, Seq<Seq<u8>>) {
    let c = n.conns[i];
    match c.opened {
        Some(v) if !v.established => {
            let rcv = plus(seq, 1);
            let begun = Link {
                opened: Some(Visit { established: true, ..v }),
                rcv_nxt: rcv,
                sack_ok,
                seen_through: rcv,
                ..c
            };
            let request = services::line(NET_TCP_INBOUND@, v.tag);
            let (n1, a) = send_segment(
                with_link(n, i, begun),
                c.local_port,
                c.guest_port,
                c.snd_nxt,
                rcv,
                TCP_ACK,
                seq![],
            );
            let (n2, b) = send_segment(n1, c.local_port, c.guest_port, c.snd_nxt, rcv, TCP_DATA, request);
            (with_link(n2, i, Link { snd_nxt: plus(c.snd_nxt, request.len() as int), ..begun }), a + b)
        },
        _ => (n, seq![]),
    }
}

/// What the guest's reply on a connection of this end's leads to: once its line is whole, a verdict,
/// and the close behind it.
#[verifier::opaque]
pub open spec fn judge_reply(n: Net, i: int) -> (Net, Seq<Seq<u8>>) {
    let c = n.conns[i];
    match c.opened {
        Some(v) if !v.judged && bytes::ends(c.request, NEWLINE@) => {
            let line = services::verdict_on(c.request, v.tag);
            let after = plus(c.snd_nxt, line.len() as int);
            let (n1, a) = send_segment(n, c.local_port, c.guest_port, c.snd_nxt, c.rcv_nxt, TCP_DATA, line);
            let (n2, b) = send_segment(n1, c.local_port, c.guest_port, after, c.rcv_nxt, TCP_CLOSE, seq![]);
            (
                Net {
                    seen: Seen { verdicts: (n.seen.verdicts + 1) as u64, ..n.seen },
                    ..with_link(
                        n2,
                        i,
                        Link {
                            snd_nxt: plus(after, 1),
                            fin_sent: true,
                            opened: Some(Visit { judged: true, ..v }),
                            ..c
                        },
                    )
                },
                a + b,
            )
        },
        _ => (n, seq![]),
    }
}

/// What a whole request leads to: the reply in two halves, the half behind sent first, and the half
/// in front held back until the guest has spoken again, with the close behind it where the request
/// asks for that.
#[verifier::opaque]
pub open spec fn reply_now(n: Net, i: int) -> (Net, Seq<Seq<u8>>) {
    let c = n.conns[i];
    let whole = services::reply_to(c.request);
    if c.opened is Some {
        judge_reply(n, i)
    } else if c.replied || !bytes::ends(c.request, NEWLINE@) || whole is None {
        (n, seq![])
    } else {
        let reply = whole->Some_0;
        let split = reply.len() as int / 2;
        let (n1, out) = send_segment(
            n,
            c.local_port,
            c.guest_port,
            plus(c.snd_nxt, split),
            c.rcv_nxt,
            TCP_DATA,
            reply.subrange(split, reply.len() as int),
        );
        let (n2, front) = send_segment(
            n1,
            c.local_port,
            c.guest_port,
            c.snd_nxt,
            c.rcv_nxt,
            TCP_DATA,
            reply.subrange(0, split),
        );
        let snd = plus(c.snd_nxt, reply.len() as int);
        let seen = Seen { replies_reversed: (n.seen.replies_reversed + 1) as u64, ..n.seen };
        if services::closes_first(c.request) {
            let (n3, fin) = send_segment(n2, c.local_port, c.guest_port, snd, c.rcv_nxt, TCP_CLOSE, seq![]);
            (
                Net {
                    seen,
                    ..with_link(
                        n3,
                        i,
                        Link { snd_nxt: plus(snd, 1), replied: true, fin_sent: true, pending: front + fin, ..c },
                    )
                },
                out,
            )
        } else {
            (Net { seen, ..with_link(n2, i, Link { snd_nxt: snd, replied: true, pending: front, ..c }) }, out)
        }
    }
}

/// The first held segment that begins where the stream has come to.
pub open spec fn next_held(held: Seq<(u32, Seq<u8>)>, at: u32, i: int) -> Option<int>
    decreases held.len() - i,
{
    if i < 0 || i >= held.len() {
        None
    } else if held[i].0 == at {
        Some(i)
    } else {
        next_held(held, at, i + 1)
    }
}

proof fn next_held_is_inside(held: Seq<(u32, Seq<u8>)>, at: u32, i: int)
    ensures
        next_held(held, at, i) matches Some(k) ==> i <= k < held.len() && held[k].0 == at,
    decreases held.len() - i,
{
    if 0 <= i < held.len() && held[i].0 != at {
        next_held_is_inside(held, at, i + 1);
    }
}

/// A connection once bytes have arrived in order.
pub open spec fn took(c: Link, bytes: Seq<u8>) -> Link {
    Link { rcv_nxt: plus(c.rcv_nxt, bytes.len() as int), request: c.request + bytes, ..c }
}

/// A connection once every held segment that now follows on has joined the stream.
pub open spec fn drained(c: Link) -> Link
    decreases c.held.len(),
{
    match next_held(c.held, c.rcv_nxt, 0) {
        Some(k) if 0 <= k < c.held.len() => drained(took(Link { held: c.held.remove(k), ..c }, c.held[k].1)),
        _ => c,
    }
}

/// Whether a segment that begins at a sequence number is held.
pub open spec fn holds(held: Seq<(u32, Seq<u8>)>, seq: u32) -> bool {
    exists|k: int| 0 <= k < held.len() && (#[trigger] held[k]).0 == seq
}

/// Whether a segment lies past the hole: ahead of the stream, within half the sequence space.
pub open spec fn is_ahead(c: Link, seq: u32) -> bool {
    seq != c.rcv_nxt && past(c.rcv_nxt, seq) < 0x7fff_ffff
}

/// A connection once a data segment has been taken: joined to the stream where it follows on, held
/// where it lies past a hole, and otherwise as it was.
pub open spec fn taken(c: Link, seq: u32, payload: Seq<u8>) -> Link {
    if seq == c.rcv_nxt {
        drained(took(c, payload))
    } else if is_ahead(c, seq) && !holds(c.held, seq) {
        Link { held: c.held.push((seq, payload)), ..c }
    } else {
        c
    }
}

/// A run that begins at a sequence number, placed behind those that are no further from the hole.
pub open spec fn placed(runs: Seq<(u32, u32)>, run: (u32, u32), hole: u32, k: nat) -> Seq<(u32, u32)>
    decreases k,
{
    if k == 0 {
        seq![run] + runs
    } else if past(hole, runs[k - 1].0) <= past(hole, run.0) {
        runs.insert(k as int, run)
    } else {
        placed(runs, run, hole, (k - 1) as nat)
    }
}

/// The first `k` held segments as runs, in sequence order from the hole.
pub open spec fn in_order(held: Seq<(u32, Seq<u8>)>, hole: u32, k: nat) -> Seq<(u32, u32)>
    decreases k,
{
    if k == 0 {
        seq![]
    } else {
        let before = in_order(held, hole, (k - 1) as nat);
        let (at, bytes) = held[k - 1];
        placed(before, (at, plus(at, bytes.len() as int)), hole, before.len())
    }
}

/// The first `k` runs, with those that meet joined.
pub open spec fn coalesced(runs: Seq<(u32, u32)>, k: nat) -> Seq<(u32, u32)>
    decreases k,
{
    if k == 0 {
        seq![]
    } else {
        let before = coalesced(runs, (k - 1) as nat);
        if before.len() > 0 && before.last().1 == runs[k - 1].0 {
            before.drop_last().push((before.last().0, runs[k - 1].1))
        } else {
            before.push(runs[k - 1])
        }
    }
}

/// The runs that a selective acknowledgement names: what is held past the hole, joined where it
/// meets, nearest first, and nothing at all for a guest that never asked.
pub open spec fn named(c: Link) -> Seq<(u32, u32)> {
    if !c.sack_ok {
        seq![]
    } else {
        let order = in_order(c.held, c.rcv_nxt, c.held.len());
        let runs = coalesced(order, order.len());
        if runs.len() > SACK_BLOCKS {
            runs.subrange(0, SACK_BLOCKS as int)
        } else {
            runs
        }
    }
}

/// Whether a segment is one that the guest is sending again.
pub open spec fn is_again(c: Link, seq: u32) -> bool {
    c.seen_through != 0 && comes_before(seq, c.seen_through)
}

/// A connection once a segment has been seen, whatever is done with it.
pub open spec fn noted(c: Link, seq: u32, len: int) -> Link {
    let end = plus(seq, len);
    if c.seen_through == 0 || comes_before(c.seen_through, end) {
        Link { seen_through: end, ..c }
    } else {
        c
    }
}

/// The counts once a segment has been seen.
pub open spec fn counted(s: Seen, c: Link, seq: u32, len: int) -> Seen {
    if is_again(c, seq) {
        Seen {
            guest_retransmits: (s.guest_retransmits + 1) as u64,
            guest_retransmit_bytes: (s.guest_retransmit_bytes + len) as u64,
            ..s
        }
    } else {
        s
    }
}

/// Whether a data segment is the one that its connection loses: the first in order on a connection
/// that the guest opened.
pub open spec fn is_lost(c: Link, seq: u32) -> bool {
    c.opened is None && seq == c.rcv_nxt && !c.dropped
}

/// What a data segment leads to: each connection's first is dropped in silence; every other is
/// acknowledged with what is still missing and what is held past it, and the reply follows once the
/// request is whole.
#[verifier::opaque]
pub open spec fn hear_data(n: Net, i: int, seq: u32, payload: Seq<u8>) -> (Net, Seq<Seq<u8>>) {
    let c = noted(n.conns[i], seq, payload.len() as int);
    let s = counted(n.seen, n.conns[i], seq, payload.len() as int);
    if is_lost(c, seq) {
        (
            Net {
                seen: Seen { dropped_first: (s.dropped_first + 1) as u64, ..s },
                ..with_link(n, i, Link { dropped: true, ..c })
            },
            seq![],
        )
    } else {
        let t = taken(c, seq, payload);
        let s = if is_ahead(c, seq) {
            Seen { duplicate_acks: (s.duplicate_acks + 1) as u64, ..s }
        } else {
            s
        };
        let blocks = named(t);
        let s = if blocks.len() > 0 {
            Seen {
                selective_acks: (s.selective_acks + 1) as u64,
                blocks_sent: (s.blocks_sent + blocks.len()) as u64,
                ..s
            }
        } else {
            s
        };
        let (n1, a) = send_blocks(
            Net { seen: s, ..with_link(n, i, t) },
            t.local_port,
            t.guest_port,
            t.snd_nxt,
            t.rcv_nxt,
            TCP_ACK,
            blocks,
            seq![],
        );
        let (n2, b) = reply_now(n1, i);
        (n2, a + b)
    }
}

/// What the guest's FIN leads to: its acknowledgement, and this end's own FIN if it has not gone
/// already. A FIN past a hole is acknowledged when the hole fills.
pub open spec fn hear_close(n: Net, i: int, seq: u32, len: int) -> (Net, Seq<Seq<u8>>) {
    let c = n.conns[i];
    if plus(seq, len) != c.rcv_nxt {
        (n, seq![])
    } else {
        let rcv = plus(c.rcv_nxt, 1);
        let (n1, out) = send_segment(
            n,
            c.local_port,
            c.guest_port,
            c.snd_nxt,
            rcv,
            if c.fin_sent {
                TCP_ACK
            } else {
                TCP_CLOSE
            },
            seq![],
        );
        (
            with_link(
                n1,
                i,
                Link {
                    rcv_nxt: rcv,
                    fin_seen: true,
                    fin_sent: true,
                    snd_nxt: if c.fin_sent {
                        c.snd_nxt
                    } else {
                        plus(c.snd_nxt, 1)
                    },
                    ..c
                },
            ),
            out,
        )
    }
}

/// What a segment of a connection leads to.
pub open spec fn hear_on(n: Net, i: int, t: Told) -> (Net, Seq<Seq<u8>>) {
    let c = n.conns[i];
    let n0 = Net {
        seen: if t.blocks > 0 {
            Seen { guest_blocks: (n.seen.guest_blocks + 1) as u64, ..n.seen }
        } else {
            n.seen
        },
        ..with_link(n, i, Link { pending: seq![], ..c })
    };
    let (n1, a) = if t.payload.len() > 0 {
        hear_data(n0, i, t.seq as u32, t.payload)
    } else {
        (n0, seq![])
    };
    let (n2, b) = if flagged(t.flags, TCP_FIN) {
        hear_close(n1, i, t.seq as u32, t.payload.len() as int)
    } else {
        (n1, seq![])
    };
    let d = n2.conns[i];
    (
        if flagged(t.flags, TCP_ACK) && d.fin_sent && t.ack == d.snd_nxt && d.fin_seen {
            forget(n2, t.guest_port, t.local_port)
        } else {
            n2
        },
        c.pending + a + b,
    )
}

/// What a TCP segment leads to.
pub open spec fn hear_segment(n: Net, f: Seq<u8>) -> (Net, Seq<Seq<u8>>) {
    match segment_in(n, f) {
        None => (n, seq![]),
        Some(t) => if flagged(t.flags, TCP_RST) {
            (forget(n, t.guest_port, t.local_port), seq![])
        } else if flagged(t.flags, TCP_SYN) && !flagged(t.flags, TCP_ACK) {
            accept_from(n, t.guest_port as u16, t.seq as u32, t.sack_permitted)
        } else {
            match between(n.conns, t.guest_port, t.local_port, 0) {
                None => (n, seq![]),
                Some(i) => if flagged(t.flags, TCP_SYN) {
                    establish(n, i, t.seq as u32, t.sack_permitted)
                } else {
                    hear_on(n, i, t)
                },
            }
        },
    }
}

/// What a frame from the guest leads to. Its sender is where answers go.
pub open spec fn answered(n: Net, f: Seq<u8>) -> (Net, Seq<Seq<u8>>) {
    let n = if f.len() >= 12 {
        Net { guest_mac: Some(f.subrange(6, 12)), ..n }
    } else {
        n
    };
    if f.len() < 14 {
        (n, seq![])
    } else if f.subrange(12, 14) == ETHERTYPE_ARP@ {
        let (m, out) = hear_arp(n, f);
        (
            if out.len() > 0 {
                Net { seen: Seen { arp_answered: (m.seen.arp_answered + 1) as u64, ..m.seen }, ..m }
            } else {
                m
            },
            out,
        )
    } else if f.subrange(12, 14) == ETHERTYPE_IPV4@ && f.len() > 23 {
        if f[23] == PROTO_ICMP {
            match echo_answer(n.guest_mac, f) {
                Some(e) => (
                    Net { seen: Seen { echoes_answered: (n.seen.echoes_answered + 1) as u64, ..n.seen }, ..n },
                    seq![e],
                ),
                None => (n, seq![]),
            }
        } else if f[23] == PROTO_UDP {
            hear_datagram(n, f)
        } else if f[23] == PROTO_TCP {
            hear_segment(n, f)
        } else {
            (n, seq![])
        }
    } else {
        (n, seq![])
    }
}

/// The runs that a connection holds past its hole: what a selective acknowledgement names.
fn held_blocks(c: &Conn) -> (r: Vec<(u32, u32)>)
    ensures
        r@ == named(c@),
        r@.len() <= 3,
{
    let mut runs: Vec<(u32, u32)> = Vec::new();
    if !c.sack_ok {
        assert(runs@ =~= seq![]);
        return runs;
    }
    let ghost held = c@.held;
    let mut order: Vec<(u32, u32)> = Vec::new();
    let mut i: usize = 0;
    assert(order@ =~= seq![]);
    while i < c.held.len()
        invariant
            i <= c.held@.len(),
            held == held_views(c.held@),
            order@ == in_order(held, c.rcv_nxt, i as nat),
        decreases c.held@.len() - i,
    {
        assert(held[i as int] == (c.held@[i as int].0, c.held@[i as int].1@));
        let at: u32 = c.held[i].0;
        let run: (u32, u32) = (at, further(at, c.held[i].1.len()));
        let ghost before = order@;
        let mut k: usize = order.len();
        while k > 0 && distance(c.rcv_nxt, order[k - 1].0) > distance(c.rcv_nxt, run.0)
            invariant
                k <= order@.len(),
                order@ == before,
                placed(before, run, c.rcv_nxt, before.len()) == placed(before, run, c.rcv_nxt, k as nat),
            decreases k,
        {
            k -= 1;
        }
        order.insert(k, run);
        assert(before.insert(0, run) =~= seq![run] + before);
        i += 1;
    }
    let mut j: usize = 0;
    assert(runs@ =~= seq![]);
    while j < order.len()
        invariant
            j <= order@.len(),
            runs@ == coalesced(order@, j as nat),
        decreases order@.len() - j,
    {
        let (start, end) = order[j];
        let n: usize = runs.len();
        if n > 0 && runs[n - 1].1 == start {
            let first: u32 = runs[n - 1].0;
            let ghost before = runs@;
            runs.set(n - 1, (first, end));
            assert(runs@ =~= before.drop_last().push((first, end)));
        } else {
            runs.push((start, end));
        }
        j += 1;
    }
    if runs.len() > SACK_BLOCKS {
        let ghost all = runs@;
        runs.truncate(SACK_BLOCKS);
        assert(runs@ =~= all.subrange(0, SACK_BLOCKS as int));
    }
    runs
}

impl Conn {
    fn find_held(&self) -> (r: Option<usize>)
        ensures
            match r {
                Some(k) => k < self.held@.len() && next_held(self@.held, self.rcv_nxt, 0) == Some(k as int),
                None => next_held(self@.held, self.rcv_nxt, 0) == None::<int>,
            },
    {
        let ghost held = self@.held;
        let mut k: usize = 0;
        while k < self.held.len()
            invariant
                k <= self.held@.len(),
                held == held_views(self.held@),
                next_held(held, self.rcv_nxt, 0) == next_held(held, self.rcv_nxt, k as int),
            decreases self.held@.len() - k,
        {
            assert(held[k as int].0 == self.held@[k as int].0);
            if self.held[k].0 == self.rcv_nxt {
                return Some(k);
            }
            k += 1;
        }
        None
    }

    fn is_held(&self, seq: u32) -> (r: bool)
        ensures
            r == holds(self@.held, seq),
    {
        let ghost held = self@.held;
        let mut k: usize = 0;
        while k < self.held.len()
            invariant
                k <= self.held@.len(),
                held == held_views(self.held@),
                forall|j: int| 0 <= j < k ==> (#[trigger] held[j]).0 != seq,
            decreases self.held@.len() - k,
        {
            assert(held[k as int].0 == self.held@[k as int].0);
            if self.held[k].0 == seq {
                return true;
            }
            k += 1;
        }
        false
    }

    /// Take one data segment: join it to the stream, or hold it past the hole.
    fn take(&mut self, seq: u32, payload: &[u8])
        ensures
            final(self)@ == taken(old(self)@, seq, payload@),
    {
        if seq == self.rcv_nxt {
            let ghost whole = took(self@, payload@);
            self.rcv_nxt = further(self.rcv_nxt, payload.len());
            bytes::push_all(&mut self.request, payload);
            let mut next: Option<usize> = self.find_held();
            while next.is_some()
                invariant
                    drained(self@) == drained(whole),
                    match next {
                        Some(k) => k < self.held@.len() && next_held(self@.held, self.rcv_nxt, 0) == Some(k as int),
                        None => next_held(self@.held, self.rcv_nxt, 0) == None::<int>,
                    },
                decreases self.held@.len(),
            {
                let ghost before = self@;
                let k: usize = next.unwrap();
                let (_, more) = self.held.remove(k);
                assert(before.held[k as int].1 == more@);
                self.rcv_nxt = further(self.rcv_nxt, more.len());
                bytes::push_all(&mut self.request, more.as_slice());
                assert(self@.held =~= before.held.remove(k as int));
                assert(self@ == took(Link { held: before.held.remove(k as int), ..before }, more@));
                next = self.find_held();
            }
        } else if distance(self.rcv_nxt, seq) < 0x7fff_ffff {
            if !self.is_held(seq) {
                let ghost before = self@;
                self.held.push((seq, copy_of(payload)));
                assert(self@.held =~= before.held.push((seq, payload@)));
            }
        }
    }

    fn note(&mut self, seq: u32, len: usize)
        ensures
            final(self)@ == noted(old(self)@, seq, len as int),
    {
        let end: u32 = further(seq, len);
        if self.seen_through == 0 || before(self.seen_through, end) {
            self.seen_through = end;
        }
    }
}

impl Peer {
    fn is_our_port(&self, port: u16) -> (r: bool)
        ensures
            r == is_ours(self@, port as int),
    {
        if port == self.ports.tcp {
            return true;
        }
        let ghost all = self@.conns;
        let mut k: usize = 0;
        while k < self.conns.len()
            invariant
                k <= self.conns@.len(),
                all == links(self.conns@),
                forall|j: int| 0 <= j < k ==> (#[trigger] all[j]).local_port != port,
            decreases self.conns@.len() - k,
        {
            assert(all[k as int] == self.conns@[k as int]@);
            if self.conns[k].local_port == port {
                assert(all[k as int].local_port == port);
                return true;
            }
            k += 1;
        }
        false
    }

    /// The parts of a segment addressed to the service or to a connection this end opened.
    fn segment(&self, frame: &[u8]) -> (r: Option<Segment>)
        ensures
            match r {
                Some(s) => segment_in(self@, frame@) == Some(s@) && s.payload@.len() <= 0xffff,
                None => segment_in(self@, frame@) == None::<Told>,
            },
    {
        let (ihl, total) = match wire::ipv4_header(frame) {
            Some(p) => p,
            None => return None,
        };
        let at: usize = 14 + ihl;
        if !is_for_gateway(frame) || at + 20 > frame.len() {
            return None;
        }
        let to: u16 = bytes::get_be16(frame, at + 2);
        let header: usize = (frame[at + 12] / 16) as usize * 4;
        if !self.is_our_port(to) || header < 20 || at + header > frame.len() || ihl + header > total {
            return None;
        }
        let (sack_permitted, blocks) = tcp_options(slice_subrange(frame, at + 20, at + header));
        Some(
            Segment {
                guest_port: bytes::get_be16(frame, at),
                local_port: to,
                seq: bytes::get_be32(frame, at + 4),
                ack: bytes::get_be32(frame, at + 8),
                flags: frame[at + 13],
                sack_permitted,
                blocks,
                payload: bytes::copied(frame, at + header, 14 + total),
            },
        )
    }

    fn find_between(&self, guest: u16, local: u16) -> (r: Option<usize>)
        ensures
            match r {
                Some(i) => i < self.conns@.len() && between(self@.conns, guest as int, local as int, 0) == Some(i as int),
                None => between(self@.conns, guest as int, local as int, 0) == None::<int>,
            },
    {
        let ghost all = self@.conns;
        let mut i: usize = 0;
        while i < self.conns.len()
            invariant
                i <= self.conns@.len(),
                all == links(self.conns@),
                between(all, guest as int, local as int, 0) == between(all, guest as int, local as int, i as int),
            decreases self.conns@.len() - i,
        {
            assert(all[i as int] == self.conns@[i as int]@);
            if self.conns[i].guest_port == guest && self.conns[i].local_port == local {
                return Some(i);
            }
            i += 1;
        }
        None
    }

    fn find_guest(&self, guest: u16) -> (r: Option<usize>)
        ensures
            match r {
                Some(i) => i < self.conns@.len() && from_guest(self@.conns, guest as int, 0) == Some(i as int),
                None => from_guest(self@.conns, guest as int, 0) == None::<int>,
            },
    {
        let ghost all = self@.conns;
        let mut i: usize = 0;
        while i < self.conns.len()
            invariant
                i <= self.conns@.len(),
                all == links(self.conns@),
                from_guest(all, guest as int, 0) == from_guest(all, guest as int, i as int),
            decreases self.conns@.len() - i,
        {
            assert(all[i as int] == self.conns@[i as int]@);
            if self.conns[i].guest_port == guest {
                return Some(i);
            }
            i += 1;
        }
        None
    }

    fn drop_between(&mut self, guest: u16, local: u16)
        ensures
            final(self)@ == forget(old(self)@, guest as int, local as int),
    {
        let ghost before = self@;
        let mut old_conns: Vec<Conn> = Vec::new();
        std::mem::swap(&mut old_conns, &mut self.conns);
        let ghost all = links(old_conns@);
        let count: usize = old_conns.len();
        let mut left: Vec<Conn> = Vec::new();
        assert(links(left@) =~= seq![]);
        let mut i: usize = 0;
        while old_conns.len() > 0
            invariant
                i + old_conns@.len() == count,
                count == all.len(),
                links(old_conns@) == all.subrange(i as int, all.len() as int),
                links(left@) == others(all, guest as int, local as int, i as nat),
            decreases old_conns@.len(),
        {
            let ghost rest = old_conns@;
            let c = old_conns.remove(0);
            assert(links(rest)[0] == c@);
            assert(all[i as int] == c@);
            assert(links(old_conns@) =~= links(rest).subrange(1, links(rest).len() as int));
            assert(links(old_conns@) =~= all.subrange(i + 1, all.len() as int));
            if c.guest_port != guest || c.local_port != local {
                let ghost kept = links(left@);
                let ghost link = c@;
                left.push(c);
                assert(links(left@) =~= kept.push(link));
            }
            i += 1;
        }
        self.conns = left;
    }

    /// Answer a SYN: the handshake.
    fn accept(&mut self, guest_port: u16, seq: u32, sack_ok: bool) -> (r: Vec<Vec<u8>>)
        requires
            old(self).seen.connections < u64::MAX,
        ensures
            (final(self)@, wire::frames(r@)) == accept_from(old(self)@, guest_port, seq, sack_ok),
    {
        if let Some(i) = self.find_guest(guest_port) {
            assert(self@.conns[i as int] == self.conns@[i as int]@);
            let (local, snd, rcv) = (
                self.conns[i].local_port,
                back_one(self.conns[i].snd_nxt),
                self.conns[i].rcv_nxt,
            );
            let f = self.bare_frame(local, guest_port, snd, rcv, TCP_ACCEPT);
            return listed(f);
        }
        let ghost before = self@;
        let isn: u32 = further(0x2000_0000, 0x100 * guest_port as usize);
        let rcv: u32 = further(seq, 1);
        let c = new_conn(guest_port, self.ports.tcp, further(isn, 1), rcv, sack_ok, None);
        let ghost link = c@;
        self.conns.push(c);
        assert(self@.conns =~= before.conns.push(link));
        self.seen.connections = self.seen.connections + 1;
        let local: u16 = self.ports.tcp;
        let f = self.bare_frame(local, guest_port, isn, rcv, TCP_ACCEPT);
        listed(f)
    }

    /// Finish the handshake of a connection that this end opened, and send its request.
    fn established(&mut self, i: usize, seq: u32, sack_ok: bool) -> (r: Vec<Vec<u8>>)
        requires
            i < old(self).conns@.len(),
        ensures
            (final(self)@, wire::frames(r@)) == establish(old(self)@, i as int, seq, sack_ok),
    {
        let ghost n = self@;
        let ghost c = n.conns[i as int];
        assert(c == self.conns@[i as int]@);
        let mut out: Vec<Vec<u8>> = Vec::new();
        assert(wire::frames(out@) =~= seq![]);
        let tag = match &self.conns[i].opened {
            Some(o) => {
                if o.established {
                    return out;
                }
                copy_of(o.tag.as_slice())
            },
            None => return out,
        };
        let judged = match &self.conns[i].opened {
            Some(o) => o.judged,
            None => false,
        };
        let rcv: u32 = further(seq, 1);
        let (port, local, snd) = (self.conns[i].guest_port, self.conns[i].local_port, self.conns[i].snd_nxt);
        let request = services::inbound_request(tag.as_slice());
        let k = &mut self.conns[i];
        k.opened = Some(Opened { tag, established: true, judged });
        k.rcv_nxt = rcv;
        k.sack_ok = sack_ok;
        k.seen_through = rcv;
        let ghost begun = Link {
            opened: Some(Visit { established: true, ..c.opened->Some_0 }),
            rcv_nxt: rcv,
            sack_ok,
            seen_through: rcv,
            ..c
        };
        assert(self@.conns =~= n.conns.update(i as int, begun));
        let a = self.bare_frame(local, port, snd, rcv, TCP_ACK);
        push_frames(&mut out, listed(a));
        let b = self.tcp_frame(local, port, snd, rcv, TCP_DATA, request.as_slice());
        push_frames(&mut out, listed(b));
        let ghost sent = self@;
        assert(sent.conns[i as int] == self.conns@[i as int]@);
        let k = &mut self.conns[i];
        k.snd_nxt = further(snd, request.len());
        assert(self@.conns =~= sent.conns.update(i as int, Link { snd_nxt: plus(snd, request@.len() as int), ..begun }));
        assert(wire::frames(out@) =~= one(a) + one(b));
        out
    }

    /// Judge the guest's reply, say so, and close.
    fn judge(&mut self, i: usize) -> (r: Vec<Vec<u8>>)
        requires
            i < old(self).conns@.len(),
            old(self).seen.verdicts < u64::MAX,
        ensures
            (final(self)@, wire::frames(r@)) == judge_reply(old(self)@, i as int),
            final(self).conns@.len() == old(self).conns@.len(),
    {
        reveal(judge_reply);
        let ghost n = self@;
        let ghost c = n.conns[i as int];
        assert(c == self.conns@[i as int]@);
        let mut out: Vec<Vec<u8>> = Vec::new();
        assert(wire::frames(out@) =~= seq![]);
        let (tag, established) = match &self.conns[i].opened {
            Some(o) => {
                if o.judged || !bytes::ends_with(self.conns[i].request.as_slice(), NEWLINE.as_slice()) {
                    return out;
                }
                (copy_of(o.tag.as_slice()), o.established)
            },
            None => return out,
        };
        let line = services::inbound_verdict(self.conns[i].request.as_slice(), tag.as_slice());
        let (port, local, snd, rcv) = (
            self.conns[i].guest_port,
            self.conns[i].local_port,
            self.conns[i].snd_nxt,
            self.conns[i].rcv_nxt,
        );
        let after: u32 = further(snd, line.len());
        let a = self.tcp_frame(local, port, snd, rcv, TCP_DATA, line.as_slice());
        push_frames(&mut out, listed(a));
        let b = self.bare_frame(local, port, after, rcv, TCP_CLOSE);
        push_frames(&mut out, listed(b));
        let ghost sent = self@;
        assert(sent.conns[i as int] == self.conns@[i as int]@);
        let k = &mut self.conns[i];
        k.snd_nxt = further(after, 1);
        k.fin_sent = true;
        k.opened = Some(Opened { tag, established, judged: true });
        let ghost done = Link {
            snd_nxt: plus(after, 1),
            fin_sent: true,
            opened: Some(Visit { judged: true, ..c.opened->Some_0 }),
            ..c
        };
        assert(self@.conns =~= sent.conns.update(i as int, done));
        self.seen.verdicts = self.seen.verdicts + 1;
        assert(wire::frames(out@) =~= one(a) + one(b));
        out
    }

    /// The reply, once the request line is whole: two segments, the second sent first.
    fn reply(&mut self, i: usize) -> (r: Vec<Vec<u8>>)
        requires
            i < old(self).conns@.len(),
            old(self).seen.verdicts < u64::MAX,
            old(self).seen.replies_reversed < u64::MAX,
        ensures
            (final(self)@, wire::frames(r@)) == reply_now(old(self)@, i as int),
            final(self).conns@.len() == old(self).conns@.len(),
    {
        reveal(reply_now);
        let ghost n = self@;
        let ghost c = n.conns[i as int];
        assert(c == self.conns@[i as int]@);
        if self.conns[i].opened.is_some() {
            return self.judge(i);
        }
        let none: Vec<Vec<u8>> = Vec::new();
        assert(wire::frames(none@) =~= seq![]);
        if self.conns[i].replied || !bytes::ends_with(self.conns[i].request.as_slice(), NEWLINE.as_slice()) {
            return none;
        }
        let reply = match services::tcp_reply(self.conns[i].request.as_slice()) {
            Some(r) => r,
            None => return none,
        };
        let ghost whole = reply.first@ + reply.second@;
        let ghost split = whole.len() as int / 2;
        assert(whole.subrange(0, split) =~= reply.first@);
        assert(whole.subrange(split, whole.len() as int) =~= reply.second@);
        let (port, local, snd, rcv) = (
            self.conns[i].guest_port,
            self.conns[i].local_port,
            self.conns[i].snd_nxt,
            self.conns[i].rcv_nxt,
        );
        let second_at: u32 = further(snd, reply.first.len());
        let after: u32 = further(second_at, reply.second.len());
        proof {
            plus_plus(snd, reply.first@.len() as int, reply.second@.len() as int);
        }
        let f = self.tcp_frame(local, port, second_at, rcv, TCP_DATA, reply.second.as_slice());
        let out = listed(f);
        let f = self.tcp_frame(local, port, snd, rcv, TCP_DATA, reply.first.as_slice());
        let mut back = listed(f);
        if reply.peer_closes {
            let fin = self.bare_frame(local, port, after, rcv, TCP_CLOSE);
            push_frames(&mut back, listed(fin));
            let ghost held = wire::frames(back@);
            let ghost sent = self@;
            assert(sent.conns[i as int] == self.conns@[i as int]@);
            let k = &mut self.conns[i];
            k.snd_nxt = further(after, 1);
            k.replied = true;
            k.fin_sent = true;
            k.pending = back;
            assert(self@.conns =~= sent.conns.update(
                i as int,
                Link { snd_nxt: plus(after, 1), replied: true, fin_sent: true, pending: held, ..c },
            ));
        } else {
            let ghost held = wire::frames(back@);
            let ghost sent = self@;
            assert(sent.conns[i as int] == self.conns@[i as int]@);
            let k = &mut self.conns[i];
            k.snd_nxt = after;
            k.replied = true;
            k.pending = back;
            assert(self@.conns =~= sent.conns.update(
                i as int,
                Link { snd_nxt: after, replied: true, pending: held, ..c },
            ));
        }
        self.seen.replies_reversed = self.seen.replies_reversed + 1;
        out
    }

    /// Take one data segment, and answer it.
    fn data(&mut self, i: usize, seq: u32, payload: &[u8]) -> (r: Vec<Vec<u8>>)
        requires
            i < old(self).conns@.len(),
            payload@.len() <= 0xffff,
            old(self).seen.guest_retransmits < u64::MAX,
            old(self).seen.guest_retransmit_bytes <= u64::MAX - 0x1_0000,
            old(self).seen.dropped_first < u64::MAX,
            old(self).seen.duplicate_acks < u64::MAX,
            old(self).seen.selective_acks < u64::MAX,
            old(self).seen.blocks_sent <= u64::MAX - 3,
            old(self).seen.verdicts < u64::MAX,
            old(self).seen.replies_reversed < u64::MAX,
        ensures
            (final(self)@, wire::frames(r@)) == hear_data(old(self)@, i as int, seq, payload@),
            final(self).conns@.len() == old(self).conns@.len(),
    {
        reveal(hear_data);
        let ghost n = self@;
        let ghost c = noted(n.conns[i as int], seq, payload@.len() as int);
        assert(n.conns[i as int] == self.conns@[i as int]@);
        let through: u32 = self.conns[i].seen_through;
        if through != 0 && before(seq, through) {
            self.seen.guest_retransmits = self.seen.guest_retransmits + 1;
            self.seen.guest_retransmit_bytes = self.seen.guest_retransmit_bytes + payload.len() as u64;
        }
        let k = &mut self.conns[i];
        k.note(seq, payload.len());
        let lost = k.opened.is_none() && seq == k.rcv_nxt && !k.dropped;
        if lost {
            k.dropped = true;
            assert(self@.conns =~= n.conns.update(i as int, Link { dropped: true, ..c }));
            self.seen.dropped_first = self.seen.dropped_first + 1;
            let none: Vec<Vec<u8>> = Vec::new();
            assert(wire::frames(none@) =~= seq![]);
            return none;
        }
        let ahead = seq != k.rcv_nxt && distance(k.rcv_nxt, seq) < 0x7fff_ffff;
        k.take(seq, payload);
        let ghost t = taken(c, seq, payload@);
        assert(self@.conns =~= n.conns.update(i as int, t));
        if ahead {
            self.seen.duplicate_acks = self.seen.duplicate_acks + 1;
        }
        let ghost with = self@;
        assert(self.conns@[i as int]@ == with.conns[i as int]);
        let blocks = held_blocks(&self.conns[i]);
        if blocks.len() > 0 {
            self.seen.selective_acks = self.seen.selective_acks + 1;
            self.seen.blocks_sent = self.seen.blocks_sent + blocks.len() as u64;
        }
        let s = Out {
            from: self.conns[i].local_port,
            to: self.conns[i].guest_port,
            seq: self.conns[i].snd_nxt,
            ack: self.conns[i].rcv_nxt,
            flags: TCP_ACK,
        };
        let f = self.ack_frame(&s, &blocks);
        let mut out = listed(f);
        let more = self.reply(i);
        push_frames(&mut out, more);
        out
    }

    /// Acknowledge the guest's FIN, and send this end's if it has not gone already.
    fn closing(&mut self, i: usize, seq: u32, len: usize) -> (r: Vec<Vec<u8>>)
        requires
            i < old(self).conns@.len(),
        ensures
            (final(self)@, wire::frames(r@)) == hear_close(old(self)@, i as int, seq, len as int),
            final(self).conns@.len() == old(self).conns@.len(),
    {
        let ghost n = self@;
        let ghost c = n.conns[i as int];
        assert(c == self.conns@[i as int]@);
        if further(seq, len) != self.conns[i].rcv_nxt {
            let none: Vec<Vec<u8>> = Vec::new();
            assert(wire::frames(none@) =~= seq![]);
            return none;
        }
        let (port, local, snd) = (self.conns[i].guest_port, self.conns[i].local_port, self.conns[i].snd_nxt);
        let fin_sent = self.conns[i].fin_sent;
        let rcv: u32 = further(self.conns[i].rcv_nxt, 1);
        let flags: u8 = if fin_sent {
            TCP_ACK
        } else {
            TCP_CLOSE
        };
        let f = self.bare_frame(local, port, snd, rcv, flags);
        let ghost sent = self@;
        assert(sent.conns[i as int] == self.conns@[i as int]@);
        let after: u32 = if fin_sent {
            snd
        } else {
            further(snd, 1)
        };
        let k = &mut self.conns[i];
        k.rcv_nxt = rcv;
        k.fin_seen = true;
        k.fin_sent = true;
        k.snd_nxt = after;
        assert(self@.conns =~= sent.conns.update(
            i as int,
            Link { rcv_nxt: rcv, fin_seen: true, fin_sent: true, snd_nxt: after, ..c },
        ));
        listed(f)
    }
}

/// Going further twice is going further once.
proof fn plus_plus(a: u32, x: int, y: int)
    requires
        0 <= x,
        0 <= y,
    ensures
        plus(plus(a, x), y) == plus(a, x + y),
{
    vstd::arithmetic::div_mod::lemma_add_mod_noop_right(y, a + x, 0x1_0000_0000);
}

impl Peer {
    /// Drive one connection a step.
    fn step(&mut self, i: usize, seg: &Segment) -> (r: Vec<Vec<u8>>)
        requires
            i < old(self).conns@.len(),
            seg.payload@.len() <= 0xffff,
            room(old(self).seen),
        ensures
            (final(self)@, wire::frames(r@)) == hear_on(old(self)@, i as int, seg@),
    {
        let ghost n = self@;
        let ghost c = n.conns[i as int];
        assert(c == self.conns@[i as int]@);
        if seg.blocks > 0 {
            self.seen.guest_blocks = self.seen.guest_blocks + 1;
        }
        let mut out: Vec<Vec<u8>> = Vec::new();
        assert(wire::frames(out@) =~= seq![]);
        let k = &mut self.conns[i];
        std::mem::swap(&mut out, &mut k.pending);
        assert(self@.conns =~= n.conns.update(i as int, Link { pending: seq![], ..c }));
        let mut a: Vec<Vec<u8>> = Vec::new();
        assert(wire::frames(a@) =~= seq![]);
        if seg.payload.len() > 0 {
            a = self.data(i, seg.seq, seg.payload.as_slice());
        }
        push_frames(&mut out, a);
        let mut b: Vec<Vec<u8>> = Vec::new();
        assert(wire::frames(b@) =~= seq![]);
        if seg.flags / TCP_FIN % 2 == 1 {
            b = self.closing(i, seg.seq, seg.payload.len());
        }
        push_frames(&mut out, b);
        assert(self@.conns[i as int] == self.conns@[i as int]@);
        if seg.flags / TCP_ACK % 2 == 1 && self.conns[i].fin_sent && seg.ack == self.conns[i].snd_nxt
            && self.conns[i].fin_seen {
            self.drop_between(seg.guest_port, seg.local_port);
        }
        out
    }

    /// Answer a segment addressed to the service or to a connection this end opened.
    pub fn tcp(&mut self, frame: &[u8]) -> (r: Vec<Vec<u8>>)
        requires
            room(old(self).seen),
        ensures
            (final(self)@, wire::frames(r@)) == hear_segment(old(self)@, frame@),
    {
        let none: Vec<Vec<u8>> = Vec::new();
        assert(wire::frames(none@) =~= seq![]);
        let seg = match self.segment(frame) {
            Some(s) => s,
            None => return none,
        };
        if seg.flags / TCP_RST % 2 == 1 {
            self.drop_between(seg.guest_port, seg.local_port);
            return none;
        }
        let syn = seg.flags / TCP_SYN % 2 == 1;
        if syn && seg.flags / TCP_ACK % 2 == 0 {
            return self.accept(seg.guest_port, seg.seq, seg.sack_permitted);
        }
        let i: usize = match self.find_between(seg.guest_port, seg.local_port) {
            Some(i) => i,
            None => return none,
        };
        if syn {
            return self.established(i, seg.seq, seg.sack_permitted);
        }
        self.step(i, &seg)
    }

    /// What to send the guest in answer to a frame, which may be nothing.
    pub fn answer(&mut self, frame: &[u8]) -> (r: Vec<Vec<u8>>)
        requires
            room(old(self).seen),
        ensures
            (final(self)@, wire::frames(r@)) == answered(old(self)@, frame@),
    {
        let none: Vec<Vec<u8>> = Vec::new();
        assert(wire::frames(none@) =~= seq![]);
        if frame.len() >= 12 {
            let mac: [u8; 6] = [frame[6], frame[7], frame[8], frame[9], frame[10], frame[11]];
            assert(mac@ =~= frame@.subrange(6, 12));
            self.guest_mac = Some(mac);
        }
        if frame.len() < 14 {
            return none;
        }
        let kind = slice_subrange(frame, 12, 14);
        if bytes::same_bytes(kind, ETHERTYPE_ARP.as_slice()) {
            let reply = self.arp_reply(frame);
            if reply.is_some() {
                self.seen.arp_answered = self.seen.arp_answered + 1;
            }
            return listed(reply);
        }
        if !bytes::same_bytes(kind, ETHERTYPE_IPV4.as_slice()) || frame.len() <= 23 {
            return none;
        }
        if frame[23] == PROTO_ICMP {
            let reply = self.echo_reply(frame);
            if reply.is_some() {
                self.seen.echoes_answered = self.seen.echoes_answered + 1;
            }
            return listed(reply);
        }
        if frame[23] == PROTO_UDP {
            return self.udp(frame);
        }
        if frame[23] == PROTO_TCP {
            return self.tcp(frame);
        }
        none
    }
}

/// Whether bytes stand in a stream where their sequence number says, for a stream whose first byte
/// has the sequence number `base`.
pub open spec fn in_stream(s: Seq<u8>, base: u32, at: u32, b: Seq<u8>) -> bool {
    let k = past(base, at);
    k + b.len() <= s.len() && s.subrange(k, k + b.len()) == b
}

/// Whether what a connection has taken and holds is part of a stream: a front of it taken in order,
/// and pieces of it held past the hole.
pub open spec fn follows(c: Link, s: Seq<u8>, base: u32) -> bool {
    &&& s.len() < 0x8000_0000
    &&& c.request.len() <= s.len()
    &&& c.request == s.subrange(0, c.request.len() as int)
    &&& c.rcv_nxt == plus(base, c.request.len() as int)
    &&& forall|k: int| 0 <= k < c.held.len() ==> in_stream(s, base, (#[trigger] c.held[k]).0, c.held[k].1)
}

proof fn past_plus(base: u32, k: int)
    requires
        0 <= k < 0x1_0000_0000,
    ensures
        past(base, plus(base, k)) == k,
{
    let p = (base + k) % 0x1_0000_0000;
    if base + k < 0x1_0000_0000 {
        assert(p == base + k);
    } else {
        assert(p == base + k - 0x1_0000_0000);
        vstd::arithmetic::div_mod::lemma_mod_add_multiples_vanish(k - 0x1_0000_0000, 0x1_0000_0000);
    }
}

proof fn taking_follows(c: Link, s: Seq<u8>, base: u32, b: Seq<u8>)
    requires
        follows(c, s, base),
        in_stream(s, base, c.rcv_nxt, b),
    ensures
        follows(took(c, b), s, base),
{
    let n = c.request.len() as int;
    past_plus(base, n);
    assert(c.request + b =~= s.subrange(0, n + b.len()));
    plus_plus(base, n, b.len() as int);
}

proof fn draining_follows(c: Link, s: Seq<u8>, base: u32)
    requires
        follows(c, s, base),
    ensures
        follows(drained(c), s, base),
    decreases c.held.len(),
{
    next_held_is_inside(c.held, c.rcv_nxt, 0);
    if let Some(k) = next_held(c.held, c.rcv_nxt, 0) {
        let less = Link { held: c.held.remove(k), ..c };
        assert(in_stream(s, base, c.held[k].0, c.held[k].1));
        assert forall|j: int| 0 <= j < less.held.len() implies in_stream(
            s,
            base,
            (#[trigger] less.held[j]).0,
            less.held[j].1,
        ) by {
            assert(less.held[j] == if j < k {
                c.held[j]
            } else {
                c.held[j + 1]
            });
        }
        taking_follows(less, s, base, c.held[k].1);
        draining_follows(took(less, c.held[k].1), s, base);
    }
}

/// A stream arrives in order and whole, however its segments are lost, repeated and reordered: what
/// a connection has taken is always a front of what the guest sent.
pub proof fn streams_arrive_in_order(c: Link, s: Seq<u8>, base: u32, seq: u32, payload: Seq<u8>)
    requires
        follows(c, s, base),
        in_stream(s, base, seq, payload),
    ensures
        follows(taken(c, seq, payload), s, base),
        taken(c, seq, payload).request.len() >= c.request.len(),
{
    if seq == c.rcv_nxt {
        taking_follows(c, s, base, payload);
        draining_follows(took(c, payload), s, base);
        draining_grows(took(c, payload));
    } else if is_ahead(c, seq) && !holds(c.held, seq) {
        let t = taken(c, seq, payload);
        assert forall|j: int| 0 <= j < t.held.len() implies in_stream(
            s,
            base,
            (#[trigger] t.held[j]).0,
            t.held[j].1,
        ) by {
            if j < c.held.len() {
                assert(t.held[j] == c.held[j]);
            }
        }
    }
}

proof fn draining_grows(c: Link)
    ensures
        drained(c).request.len() >= c.request.len(),
    decreases c.held.len(),
{
    next_held_is_inside(c.held, c.rcv_nxt, 0);
    if let Some(k) = next_held(c.held, c.rcv_nxt, 0) {
        draining_grows(took(Link { held: c.held.remove(k), ..c }, c.held[k].1));
    }
}

/// Once drained, a connection holds nothing that begins where its stream has come to: an
/// acknowledgement always names a byte that is really missing.
pub proof fn drained_streams_wait_for_a_hole(c: Link)
    ensures
        next_held(drained(c).held, drained(c).rcv_nxt, 0) is None,
    decreases c.held.len(),
{
    next_held_is_inside(c.held, c.rcv_nxt, 0);
    if let Some(k) = next_held(c.held, c.rcv_nxt, 0) {
        drained_streams_wait_for_a_hole(took(Link { held: c.held.remove(k), ..c }, c.held[k].1));
    }
}

/// Every connection that the guest opens loses its first segment in order, and only that one.
pub proof fn connections_lose_one_segment(n: Net, i: int, seq: u32, payload: Seq<u8>)
    requires
        0 <= i < n.conns.len(),
        is_lost(noted(n.conns[i], seq, payload.len() as int), seq),
    ensures
        hear_data(n, i, seq, payload).1.len() == 0,
        hear_data(n, i, seq, payload).0.conns[i].rcv_nxt == n.conns[i].rcv_nxt,
        forall|again: u32| !is_lost(#[trigger] noted(hear_data(n, i, seq, payload).0.conns[i], again, 0), again),
{
    reveal(hear_data);
}

/// Nothing is addressed before the guest has been heard from.
pub proof fn nothing_goes_to_an_unknown_guest(n: Net, proto: u8, body: Seq<u8>)
    requires
        n.guest_mac is None,
    ensures
        send(n, proto, body) == (n, Seq::<Seq<u8>>::empty()),
{
    assert(Seq::<Seq<u8>>::empty() =~= seq![]);
}

/// A number that was served earns no second connection.
pub proof fn listeners_are_opened_once(n: Net, tag: Seq<u8>)
    requires
        n.tags.contains(tag),
    ensures
        hear_listener(n, tag).0.conns == n.conns,
        hear_listener(n, tag).0.seen == n.seen,
        hear_listener(n, tag).0.tags == n.tags,
{
    reveal(send_blocks);
}

proof fn word_verifies(front: Seq<u8>, b: Seq<u8>, at: int)
    requires
        front.len() % 2 == 0,
        0 <= at,
        at % 2 == 0,
        at + 2 <= b.len(),
        b[at] == 0,
        b[at + 1] == 0,
    ensures
        wire::checksum(front + with_word(b, at, wire::checksum(front + b))) == 0,
        wire::checksum(front + b) == 0 ==> wire::checksum(front + with_word(b, at, 0xffff)) == 0,
{
    let x = wire::checksum(front + b);
    wire::checksums_verify(front + b, front.len() + at);
    assert(front + with_word(b, at, x) =~= bytes::splice(front + b, front.len() + at, bytes::be16_bytes(x)));
    if x == 0 {
        wire::all_ones_verify(front + b, front.len() + at);
        assert(front + with_word(b, at, 0xffff) =~= bytes::splice(
            front + b,
            front.len() + at,
            bytes::be16_bytes(0xffff),
        ));
    }
}

/// Every datagram that this end sends carries a checksum that a receiver can check.
pub proof fn datagrams_verify(from: u16, to: u16, payload: Seq<u8>)
    ensures
        ({
            let b = datagram_body(from, to, payload);
            wire::checksum(pseudo_header(PROTO_UDP, b.len() as int) + b) == 0
        }),
{
    reveal(datagram_body);
    let b = bare_datagram(from, to, payload);
    word_verifies(pseudo_header(PROTO_UDP, b.len() as int), b, 6);
}

/// Every segment that this end sends carries a checksum that a receiver can check.
pub proof fn segments_verify(
    from: u16,
    to: u16,
    seq: u32,
    ack: u32,
    flags: u8,
    blocks: Seq<(u32, u32)>,
    payload: Seq<u8>,
)
    ensures
        ({
            let b = segment_body(from, to, seq, ack, flags, blocks, payload);
            wire::checksum(pseudo_header(PROTO_TCP, b.len() as int) + b) == 0
        }),
{
    reveal(segment_body);
    let b = bare_segment(from, to, seq, ack, flags, blocks, payload);
    word_verifies(pseudo_header(PROTO_TCP, b.len() as int), b, 16);
}

/// Every packet that this end sends carries a header that verifies.
pub proof fn packets_verify(mac: Seq<u8>, id: u16, proto: u8, body: Seq<u8>)
    requires
        mac.len() == 6,
    ensures
        wire::checksum(packet_frame(mac, id, proto, body).subrange(14, 34)) == 0,
        packet_frame(mac, id, proto, body).subrange(34, 34 + body.len() as int) == body,
{
    reveal(packet_frame);
    let h = bare_header(20 + body.len() as int, id, proto);
    let f = packet_frame(mac, id, proto, body);
    wire::checksums_verify(h, 10);
    assert(f.subrange(14, 34) =~= header(20 + body.len() as int, id, proto));
    assert(f.subrange(34, 34 + body.len() as int) =~= body);
}

} // verus!
