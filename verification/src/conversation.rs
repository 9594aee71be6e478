//! What the network says to the guest, said of the bytes of each frame and of the connection that it
//! belongs to.

use vstd::prelude::*;

use crate::bytes;
use crate::netpeer;
use crate::netpeer::{Link, Net};
use crate::qemu::services;
use crate::qemu::wire;

verus! {

/// The acknowledgement number of a segment in a frame of this end's.
pub open spec fn acked(f: Seq<u8>) -> int {
    bytes::be32(f, 42)
}

/// The sequence number of a segment in a frame of this end's.
pub open spec fn numbered(f: Seq<u8>) -> int {
    bytes::be32(f, 38)
}

/// The flags of a segment in a frame of this end's.
pub open spec fn flags_of(f: Seq<u8>) -> int {
    f[47] as int
}

/// The bytes behind a segment's header in a frame of this end's.
pub open spec fn said(f: Seq<u8>) -> Seq<u8> {
    f.subrange(34 + 4 * (f[46] as int / 16), f.len() as int)
}

/// Whether a frame goes from the gateway to the guest at `mac`, and holds a packet of `proto` with
/// `body` in it.
pub open spec fn is_packet(f: Seq<u8>, mac: Seq<u8>, proto: int, body: Seq<u8>) -> bool {
    &&& f.len() == 34 + body.len()
    &&& f.subrange(0, 6) == mac
    &&& f.subrange(6, 12) == seq![0x52u8, 0x55u8, 0x0au8, 0u8, 2u8, 2u8]
    &&& f[12] == 8
    &&& f[13] == 0
    &&& f[14] == 0x45
    &&& bytes::be16(f, 16) == 20 + body.len()
    &&& f[20] == 0
    &&& f[21] == 0
    &&& f[22] == 64
    &&& f[23] == proto
    &&& f.subrange(26, 30) == seq![10u8, 0u8, 2u8, 2u8]
    &&& f.subrange(30, 34) == seq![10u8, 0u8, 2u8, 15u8]
    &&& f.subrange(34, f.len() as int) == body
    &&& wire::checksum(f.subrange(14, 34)) == 0
}

/// Whether a frame holds a segment between two ports.
pub open spec fn is_segment(f: Seq<u8>, mac: Seq<u8>, from: int, to: int) -> bool {
    &&& f.len() >= 54
    &&& is_packet(f, mac, 6, f.subrange(34, f.len() as int))
    &&& bytes::be16(f, 34) == from
    &&& bytes::be16(f, 36) == to
    &&& f[46] % 16 == 0
    &&& f[46] >= 0x50
}

/// Every packet that goes out is addressed from the gateway to the guest, and carries its body whole.
pub proof fn packets_go_to_the_guest(n: Net, mac: Seq<u8>, proto: u8, body: Seq<u8>)
    requires
        n.guest_mac == Some(mac),
        mac.len() == 6,
        20 + body.len() <= 0xffff,
    ensures
        ({
            let (m, out) = netpeer::send(n, proto, body);
            &&& out.len() == 1
            &&& is_packet(out[0], mac, proto as int, body)
            &&& bytes::be16(out[0], 18) == m.ip_id
            &&& m.ip_id == (n.ip_id + 1) % 0x1_0000
            &&& m.conns == n.conns
            &&& m.seen == n.seen
            &&& m.ports == n.ports
            &&& m.tags == n.tags
            &&& m.guest_mac == n.guest_mac
        }),
{
    let (m, out) = netpeer::send(n, proto, body);
    let f = out[0];
    netpeer::packets_verify(mac, m.ip_id, proto, body);
    reveal(netpeer::packet_frame);
    let h = netpeer::header(20 + body.len() as int, m.ip_id, proto);
    let at: int = 14;
    assert(h.len() == 20);
    assert(forall|i: int| 0 <= i < 20 ==> #[trigger] f[at + i] == h[i]);
    assert(f[14] == f[at + 0] && f[16] == f[at + 2] && f[17] == f[at + 3]);
    assert(f[18] == f[at + 4] && f[19] == f[at + 5] && f[20] == f[at + 6] && f[21] == f[at + 7]);
    assert(f[22] == f[at + 8] && f[23] == f[at + 9]);
    assert(f.subrange(0, 6) =~= mac);
    assert(f.subrange(6, 12) =~= seq![0x52u8, 0x55u8, 0x0au8, 0u8, 2u8, 2u8]);
    assert(f.subrange(26, 30) =~= seq![10u8, 0u8, 2u8, 2u8]) by {
        assert(f[26] == f[at + 12] && f[27] == f[at + 13] && f[28] == f[at + 14] && f[29] == f[at + 15]);
    }
    assert(f.subrange(30, 34) =~= seq![10u8, 0u8, 2u8, 15u8]) by {
        assert(f[30] == f[at + 16] && f[31] == f[at + 17] && f[32] == f[at + 18] && f[33] == f[at + 19]);
    }
    assert(f.subrange(34, f.len() as int) =~= body);
}

/// A segment carries its numbers, its flags and its bytes where a receiver looks for them.
pub proof fn segments_say_what_they_are_given(
    n: Net,
    mac: Seq<u8>,
    from: u16,
    to: u16,
    seq: u32,
    ack: u32,
    flags: u8,
    payload: Seq<u8>,
)
    requires
        n.guest_mac == Some(mac),
        mac.len() == 6,
        payload.len() <= 60_000,
        flags == 0x02 || flags == 0x10 || flags == 0x11 || flags == 0x12 || flags == 0x18,
    ensures
        ({
            let (m, out) = netpeer::send_segment(n, from, to, seq, ack, flags, payload);
            &&& out.len() == 1
            &&& is_segment(out[0], mac, from as int, to as int)
            &&& numbered(out[0]) == seq
            &&& acked(out[0]) == ack
            &&& flags_of(out[0]) == flags
            &&& said(out[0]) == payload
            &&& m.conns == n.conns
            &&& m.seen == n.seen
            &&& m.ports == n.ports
            &&& m.tags == n.tags
            &&& m.guest_mac == n.guest_mac
            &&& m.ip_id == (n.ip_id + 1) % 0x1_0000
        }),
{
    segments_with_blocks_say_what_they_are_given(n, mac, from, to, seq, ack, flags, seq![], payload);
}

/// A segment that names runs carries its numbers, its flags and its bytes where a receiver looks for
/// them.
pub proof fn segments_with_blocks_say_what_they_are_given(
    n: Net,
    mac: Seq<u8>,
    from: u16,
    to: u16,
    seq: u32,
    ack: u32,
    flags: u8,
    blocks: Seq<(u32, u32)>,
    payload: Seq<u8>,
)
    requires
        n.guest_mac == Some(mac),
        mac.len() == 6,
        payload.len() <= 60_000,
        flags == 0x02 || flags == 0x10 || flags == 0x11 || flags == 0x12 || flags == 0x18,
    ensures
        ({
            let (m, out) = netpeer::send_blocks(n, from, to, seq, ack, flags, blocks, payload);
            &&& out.len() == 1
            &&& is_segment(out[0], mac, from as int, to as int)
            &&& numbered(out[0]) == seq
            &&& acked(out[0]) == ack
            &&& flags_of(out[0]) == flags
            &&& said(out[0]) == payload
            &&& m.conns == n.conns
            &&& m.seen == n.seen
            &&& m.ports == n.ports
            &&& m.tags == n.tags
            &&& m.guest_mac == n.guest_mac
            &&& m.ip_id == (n.ip_id + 1) % 0x1_0000
        }),
{
    reveal(netpeer::send_blocks);
    let opts = netpeer::options(flags, blocks);
    let body = netpeer::segment_body(from, to, seq, ack, flags, blocks, payload);
    bodies_say_what_they_are_given(from, to, seq, ack, flags, blocks, payload);
    packets_go_to_the_guest(n, mac, 6u8, body);
    let f = netpeer::send(n, 6u8, body).1[0];
    let top: int = 34;
    assert(f.subrange(34, f.len() as int) == body);
    assert forall|i: int| 0 <= i < body.len() implies #[trigger] body[i] == f[top + i] by {
        assert(f.subrange(34, f.len() as int)[i] == f[top + i]);
    }
    assert(bytes::be16(f, 34) == bytes::be16(body, 0));
    assert(bytes::be16(f, 36) == bytes::be16(body, 2));
    assert(numbered(f) == bytes::be32(body, 4));
    assert(acked(f) == bytes::be32(body, 8));
    assert(f[46] == body[12] && f[47] == body[13]);
    let at = 34 + 4 * (f[46] as int / 16);
    assert(at == 54 + opts.len());
    assert(said(f) =~= body.subrange(20 + opts.len() as int, body.len() as int));
}

/// What a segment holds, before it is put into a packet.
proof fn bodies_say_what_they_are_given(
    from: u16,
    to: u16,
    seq: u32,
    ack: u32,
    flags: u8,
    blocks: Seq<(u32, u32)>,
    payload: Seq<u8>,
)
    ensures
        ({
            let opts = netpeer::options(flags, blocks);
            let body = netpeer::segment_body(from, to, seq, ack, flags, blocks, payload);
            &&& opts.len() % 4 == 0
            &&& opts.len() <= 28
            &&& body.len() == 20 + opts.len() + payload.len()
            &&& bytes::be16(body, 0) == from
            &&& bytes::be16(body, 2) == to
            &&& bytes::be32(body, 4) == seq
            &&& bytes::be32(body, 8) == ack
            &&& body[12] == (20 + opts.len()) / 4 * 16
            &&& body[13] == flags
            &&& body.subrange(20 + opts.len() as int, body.len() as int) == payload
        }),
{
    let opts = netpeer::options(flags, blocks);
    blocks_take_eight_bytes(blocks, if blocks.len() < 3 {
        blocks.len()
    } else {
        3
    });
    assert(opts.len() % 4 == 0 && opts.len() <= 28);
    bytes::be16_of_bytes(from as int);
    bytes::be16_of_bytes(to as int);
    bytes::be32_of_bytes(seq as int);
    bytes::be32_of_bytes(ack as int);
    let bare = netpeer::bare_segment(from, to, seq, ack, flags, blocks, payload);
    let body = netpeer::segment_body(from, to, seq, ack, flags, blocks, payload);
    parts_of_a_segment(from, to, seq, ack, flags, blocks, payload);
    assert(body == netpeer::with_word(
        bare,
        16,
        wire::checksum(netpeer::pseudo_header(netpeer::PROTO_TCP, bare.len() as int) + bare),
    )) by {
        reveal(netpeer::segment_body);
    }
    assert(body.len() == bare.len());
    assert forall|i: int| 0 <= i < body.len() && i != 16 && i != 17 implies #[trigger] body[i] == bare[i] by {}
    assert(bytes::be16(body, 0) == bytes::be16(bare, 0));
    assert(bytes::be16(body, 2) == bytes::be16(bare, 2));
    assert(bytes::be32(body, 4) == bytes::be32(bare, 4));
    assert(bytes::be32(body, 8) == bytes::be32(bare, 8));
    let at = 20 + opts.len() as int;
    assert forall|i: int| 0 <= i < payload.len() implies #[trigger] payload[i] == body[at + i] by {
        assert(bare.subrange(at, bare.len() as int)[i] == bare[at + i]);
    }
    assert(body.subrange(at, body.len() as int) =~= payload);
}

proof fn parts_of_a_segment(
    from: u16,
    to: u16,
    seq: u32,
    ack: u32,
    flags: u8,
    blocks: Seq<(u32, u32)>,
    payload: Seq<u8>,
)
    requires
        netpeer::options(flags, blocks).len() % 4 == 0,
        netpeer::options(flags, blocks).len() <= 28,
    ensures
        ({
            let opts = netpeer::options(flags, blocks);
            let bare = netpeer::bare_segment(from, to, seq, ack, flags, blocks, payload);
            &&& bare.len() == 20 + opts.len() + payload.len()
            &&& bytes::be16(bare, 0) == from
            &&& bytes::be16(bare, 2) == to
            &&& bytes::be32(bare, 4) == seq
            &&& bytes::be32(bare, 8) == ack
            &&& bare[12] == (20 + opts.len()) / 4 * 16
            &&& bare[13] == flags
            &&& bare.subrange(20 + opts.len() as int, bare.len() as int) == payload
        }),
{
    let opts = netpeer::options(flags, blocks);
    let bare = netpeer::bare_segment(from, to, seq, ack, flags, blocks, payload);
    bytes::be16_of_bytes(from as int);
    bytes::be16_of_bytes(to as int);
    bytes::be32_of_bytes(seq as int);
    bytes::be32_of_bytes(ack as int);
    let (x, y, z, w) = (
        bytes::be16_bytes(from as int),
        bytes::be16_bytes(to as int),
        bytes::be32_bytes(seq as int),
        bytes::be32_bytes(ack as int),
    );
    assert(bare[0] == x[0] && bare[1] == x[1]);
    assert(bare[2] == y[0] && bare[3] == y[1]);
    assert(bare[4] == z[0] && bare[5] == z[1] && bare[6] == z[2] && bare[7] == z[3]);
    assert(bare[8] == w[0] && bare[9] == w[1] && bare[10] == w[2] && bare[11] == w[3]);
    assert(bare.subrange(20 + opts.len() as int, bare.len() as int) =~= payload);
}

proof fn blocks_take_eight_bytes(blocks: Seq<(u32, u32)>, n: nat)
    ensures
        netpeer::block_bytes(blocks, n).len() == 8 * n,
    decreases n,
{
    if n > 0 {
        blocks_take_eight_bytes(blocks, (n - 1) as nat);
    }
}

proof fn the_first_from_a_port(conns: Seq<Link>, guest: int, k: int, i: int)
    requires
        0 <= i <= k < conns.len(),
        conns[k].guest_port == guest,
        forall|j: int| i <= j < k ==> (#[trigger] conns[j]).guest_port != guest,
    ensures
        netpeer::from_guest(conns, guest, i) == Some(k),
    decreases k - i,
{
    if i < k {
        assert(conns[i].guest_port != guest);
        the_first_from_a_port(conns, guest, k, i + 1);
    }
}

proof fn none_from_a_port(conns: Seq<Link>, guest: int, i: int)
    requires
        0 <= i,
        forall|j: int| i <= j < conns.len() ==> (#[trigger] conns[j]).guest_port != guest,
    ensures
        netpeer::from_guest(conns, guest, i) is None,
    decreases conns.len() - i,
{
    if i < conns.len() {
        assert(conns[i].guest_port != guest);
        none_from_a_port(conns, guest, i + 1);
    }
}

/// A SYN from a port that has no connection opens one, and its answer acknowledges the SYN: it carries
/// the sequence number behind the SYN's, modulo 2 to the 32nd, which is what the connection waits for
/// next. It offers this end's own number, which the connection continues behind.
pub proof fn a_first_syn_is_acknowledged(n: Net, mac: Seq<u8>, guest: u16, s: u32, sack_ok: bool)
    requires
        n.guest_mac == Some(mac),
        mac.len() == 6,
        forall|j: int| 0 <= j < n.conns.len() ==> (#[trigger] n.conns[j]).guest_port != guest,
    ensures
        ({
            let (m, out) = netpeer::accept_from(n, guest, s, sack_ok);
            let k = n.conns.len() as int;
            &&& out.len() == 1
            &&& is_segment(out[0], mac, n.ports.tcp as int, guest as int)
            &&& acked(out[0]) == (s + 1) % 0x1_0000_0000
            &&& flags_of(out[0]) == 0x12
            &&& said(out[0]).len() == 0
            &&& m.conns.len() == k + 1
            &&& forall|j: int| 0 <= j < k ==> #[trigger] m.conns[j] == n.conns[j]
            &&& m.conns[k].rcv_nxt == acked(out[0])
            &&& m.conns[k].snd_nxt == (numbered(out[0]) + 1) % 0x1_0000_0000
            &&& m.conns[k].guest_port == guest
            &&& m.conns[k].local_port == n.ports.tcp
            &&& m.conns[k].sack_ok == sack_ok
            &&& m.conns[k].held.len() == 0
            &&& m.conns[k].request.len() == 0
            &&& m.conns[k].pending.len() == 0
            &&& m.conns[k].opened is None
            &&& !m.conns[k].dropped
            &&& !m.conns[k].replied
            &&& !m.conns[k].fin_sent
            &&& !m.conns[k].fin_seen
        }),
{
    none_from_a_port(n.conns, guest as int, 0);
    let isn = netpeer::plus(0x2000_0000, 0x100 * guest);
    let link = netpeer::fresh(guest, n.ports.tcp, netpeer::plus(isn, 1), netpeer::plus(s, 1), sack_ok, None);
    let opened = Net {
        conns: n.conns.push(link),
        seen: netpeer::Seen { connections: (n.seen.connections + 1) as u64, ..n.seen },
        ..n
    };
    segments_say_what_they_are_given(
        opened,
        mac,
        n.ports.tcp,
        guest,
        isn,
        netpeer::plus(s, 1),
        0x12u8,
        seq![],
    );
}

/// A SYN that the guest sends again is answered again, with the same numbers, and opens nothing: the
/// answer acknowledges what the connection waits for, which is one behind the SYN.
pub proof fn a_repeated_syn_is_answered_alike(n: Net, mac: Seq<u8>, guest: u16, s: u32, sack_ok: bool, again: bool)
    requires
        n.guest_mac == Some(mac),
        mac.len() == 6,
        forall|j: int| 0 <= j < n.conns.len() ==> (#[trigger] n.conns[j]).guest_port != guest,
    ensures
        ({
            let (m, first) = netpeer::accept_from(n, guest, s, sack_ok);
            let (o, second) = netpeer::accept_from(m, guest, s, again);
            &&& second.len() == 1
            &&& is_segment(second[0], mac, n.ports.tcp as int, guest as int)
            &&& acked(second[0]) == (s + 1) % 0x1_0000_0000
            &&& acked(second[0]) == acked(first[0])
            &&& numbered(second[0]) == numbered(first[0])
            &&& flags_of(second[0]) == flags_of(first[0])
            &&& said(second[0]).len() == 0
            &&& o.conns == m.conns
            &&& o.seen == m.seen
        }),
{
    a_first_syn_is_acknowledged(n, mac, guest, s, sack_ok);
    let (m, first) = netpeer::accept_from(n, guest, s, sack_ok);
    let k = n.conns.len() as int;
    assert(m.guest_mac == n.guest_mac) by {
        reveal(netpeer::send_blocks);
        none_from_a_port(n.conns, guest as int, 0);
    }
    the_first_from_a_port(m.conns, guest as int, k, 0);
    a_syn_on_an_open_connection(m, mac, guest, s, again, k);
}

/// A SYN on a connection that is open is answered with what the connection waits for, and changes
/// nothing.
pub proof fn a_syn_on_an_open_connection(n: Net, mac: Seq<u8>, guest: u16, s: u32, sack_ok: bool, k: int)
    requires
        n.guest_mac == Some(mac),
        mac.len() == 6,
        0 <= k < n.conns.len(),
        n.conns[k].guest_port == guest,
        forall|j: int| 0 <= j < k ==> (#[trigger] n.conns[j]).guest_port != guest,
    ensures
        ({
            let (m, out) = netpeer::accept_from(n, guest, s, sack_ok);
            &&& out.len() == 1
            &&& is_segment(out[0], mac, n.conns[k].local_port as int, guest as int)
            &&& acked(out[0]) == m.conns[k].rcv_nxt
            &&& numbered(out[0]) == (n.conns[k].snd_nxt - 1) % 0x1_0000_0000
            &&& flags_of(out[0]) == 0x12
            &&& said(out[0]).len() == 0
            &&& m.conns == n.conns
            &&& m.seen == n.seen
        }),
{
    the_first_from_a_port(n.conns, guest as int, k, 0);
    segments_say_what_they_are_given(
        n,
        mac,
        n.conns[k].local_port,
        guest,
        netpeer::plus(n.conns[k].snd_nxt, -1),
        n.conns[k].rcv_nxt,
        0x12u8,
        seq![],
    );
}

/// Whether every frame of a list is a segment of a connection, and carries as its acknowledgement what
/// the connection waits for.
pub open spec fn all_acknowledge(out: Seq<Seq<u8>>, mac: Seq<u8>, c: Link) -> bool {
    forall|j: int| #![trigger out[j]]
        0 <= j < out.len() ==> is_segment(out[j], mac, c.local_port as int, c.guest_port as int) && acked(out[j])
            == c.rcv_nxt
}

/// The answer to this end's own SYN finishes the handshake: it is acknowledged by the number behind it,
/// in a bare acknowledgement and in the request behind that, and the connection waits for that number.
pub proof fn the_handshake_is_finished(n: Net, mac: Seq<u8>, i: int, s: u32, sack_ok: bool)
    requires
        n.guest_mac == Some(mac),
        mac.len() == 6,
        0 <= i < n.conns.len(),
        n.conns[i].opened is Some,
        !n.conns[i].opened->0.established,
        services::line(wire::NET_TCP_INBOUND@, n.conns[i].opened->0.tag).len() <= 60_000,
    ensures
        ({
            let (m, out) = netpeer::establish(n, i, s, sack_ok);
            let request = services::line(wire::NET_TCP_INBOUND@, n.conns[i].opened->0.tag);
            &&& out.len() == 2
            &&& all_acknowledge(out, mac, m.conns[i])
            &&& m.conns[i].rcv_nxt == (s + 1) % 0x1_0000_0000
            &&& flags_of(out[0]) == 0x10
            &&& flags_of(out[1]) == 0x18
            &&& said(out[0]).len() == 0
            &&& said(out[1]) == request
            &&& numbered(out[0]) == n.conns[i].snd_nxt
            &&& numbered(out[1]) == n.conns[i].snd_nxt
            &&& m.conns[i].snd_nxt == (n.conns[i].snd_nxt + request.len()) % 0x1_0000_0000
            &&& m.conns[i].opened is Some && m.conns[i].opened->0.established
        }),
{
    let c = n.conns[i];
    let v = c.opened->0;
    let rcv = netpeer::plus(s, 1);
    let begun = Link {
        opened: Some(netpeer::Visit { established: true, ..v }),
        rcv_nxt: rcv,
        sack_ok,
        seen_through: rcv,
        ..c
    };
    let request = services::line(wire::NET_TCP_INBOUND@, v.tag);
    let n0 = netpeer::with_link(n, i, begun);
    segments_say_what_they_are_given(n0, mac, c.local_port, c.guest_port, c.snd_nxt, rcv, 0x10u8, seq![]);
    let n1 = netpeer::send_segment(n0, c.local_port, c.guest_port, c.snd_nxt, rcv, 0x10u8, seq![]).0;
    segments_say_what_they_are_given(n1, mac, c.local_port, c.guest_port, c.snd_nxt, rcv, 0x18u8, request);
}

/// The guest's close is acknowledged by the number behind it, and that is what the connection waits for
/// then; this end's own close goes with it where it has not gone before. A close past a hole is
/// passed over.
pub proof fn a_close_is_acknowledged(n: Net, mac: Seq<u8>, i: int, s: u32, len: int)
    requires
        n.guest_mac == Some(mac),
        mac.len() == 6,
        0 <= i < n.conns.len(),
        0 <= len,
    ensures
        ({
            let (m, out) = netpeer::hear_close(n, i, s, len);
            let c = n.conns[i];
            &&& (s + len) % 0x1_0000_0000 != c.rcv_nxt ==> m == n && out.len() == 0
            &&& (s + len) % 0x1_0000_0000 == c.rcv_nxt ==> {
                &&& out.len() == 1
                &&& all_acknowledge(out, mac, m.conns[i])
                &&& m.conns[i].rcv_nxt == (c.rcv_nxt + 1) % 0x1_0000_0000
                &&& numbered(out[0]) == c.snd_nxt
                &&& c.fin_sent ==> flags_of(out[0]) == 0x10 && m.conns[i].snd_nxt == c.snd_nxt
                &&& !c.fin_sent ==> flags_of(out[0]) == 0x11 && m.conns[i].snd_nxt == (c.snd_nxt + 1) % 0x1_0000_0000
                &&& m.conns[i].fin_sent
                &&& m.conns[i].fin_seen
            }
        }),
{
    let c = n.conns[i];
    let rcv = netpeer::plus(c.rcv_nxt, 1);
    segments_say_what_they_are_given(
        n,
        mac,
        c.local_port,
        c.guest_port,
        c.snd_nxt,
        rcv,
        if c.fin_sent {
            0x10u8
        } else {
            0x11u8
        },
        seq![],
    );
}

/// What the guest's reply on a connection of this end's earns, once its line is whole: the verdict, the
/// close behind it, both acknowledging all that has arrived.
pub proof fn verdicts_acknowledge_what_arrived(n: Net, mac: Seq<u8>, i: int)
    requires
        n.guest_mac == Some(mac),
        mac.len() == 6,
        0 <= i < n.conns.len(),
        n.conns[i].opened is Some,
        services::verdict_on(n.conns[i].request, n.conns[i].opened->0.tag).len() <= 60_000,
    ensures
        ({
            let (m, out) = netpeer::judge_reply(n, i);
            let c = n.conns[i];
            let line = services::verdict_on(c.request, c.opened->0.tag);
            let due = !c.opened->0.judged && bytes::ends(c.request, seq![10u8]);
            &&& all_acknowledge(out, mac, m.conns[i])
            &&& m.conns.len() == n.conns.len()
            &&& m.guest_mac == n.guest_mac
            &&& m.conns[i].rcv_nxt == c.rcv_nxt
            &&& m.conns[i].local_port == c.local_port && m.conns[i].guest_port == c.guest_port
            &&& m.conns[i].pending == c.pending
            &&& !due ==> m == n && out.len() == 0
            &&& due ==> {
                &&& out.len() == 2
                &&& said(out[0]) == line
                &&& numbered(out[0]) == c.snd_nxt
                &&& flags_of(out[0]) == 0x18
                &&& said(out[1]).len() == 0
                &&& numbered(out[1]) == (c.snd_nxt + line.len()) % 0x1_0000_0000
                &&& flags_of(out[1]) == 0x11
                &&& m.conns[i].snd_nxt == (numbered(out[1]) + 1) % 0x1_0000_0000
                &&& m.conns[i].fin_sent
                &&& m.conns[i].opened->0.judged
            }
        }),
{
    reveal(netpeer::judge_reply);
    let c = n.conns[i];
    let v = c.opened->0;
    let line = services::verdict_on(c.request, v.tag);
    let after = netpeer::plus(c.snd_nxt, line.len() as int);
    assert(services::NEWLINE@ =~= seq![10u8]);
    segments_say_what_they_are_given(n, mac, c.local_port, c.guest_port, c.snd_nxt, c.rcv_nxt, 0x18u8, line);
    let n1 = netpeer::send_segment(n, c.local_port, c.guest_port, c.snd_nxt, c.rcv_nxt, 0x18u8, line).0;
    segments_say_what_they_are_given(n1, mac, c.local_port, c.guest_port, after, c.rcv_nxt, 0x11u8, seq![]);
}

/// A whole request earns its whole reply, back to front: the half behind goes at once, numbered behind
/// the half in front, which is held back until the guest speaks again. The two halves are the reply, the
/// connection goes on behind it, and every segment acknowledges all that has arrived.
pub proof fn replies_are_whole(n: Net, mac: Seq<u8>, i: int)
    requires
        n.guest_mac == Some(mac),
        mac.len() == 6,
        0 <= i < n.conns.len(),
        n.conns[i].opened is None,
        !n.conns[i].replied,
        bytes::ends(n.conns[i].request, seq![10u8]),
        services::reply_to(n.conns[i].request) is Some,
        services::reply_to(n.conns[i].request)->0.len() <= 60_000,
    ensures
        ({
            let (m, out) = netpeer::reply_now(n, i);
            let c = n.conns[i];
            let d = m.conns[i];
            let reply = services::reply_to(c.request)->0;
            let closes = services::closes_first(c.request);
            &&& out.len() == 1
            &&& d.pending.len() == if closes {
                2int
            } else {
                1int
            }
            &&& all_acknowledge(out, mac, d)
            &&& all_acknowledge(d.pending, mac, d)
            &&& d.rcv_nxt == c.rcv_nxt
            &&& said(d.pending[0]) + said(out[0]) == reply
            &&& numbered(d.pending[0]) == c.snd_nxt
            &&& numbered(out[0]) == (c.snd_nxt + said(d.pending[0]).len()) % 0x1_0000_0000
            &&& flags_of(out[0]) == 0x18
            &&& flags_of(d.pending[0]) == 0x18
            &&& d.replied
            &&& !closes ==> d.snd_nxt == (c.snd_nxt + reply.len()) % 0x1_0000_0000 && d.fin_sent == c.fin_sent
            &&& closes ==> {
                &&& flags_of(d.pending[1]) == 0x11
                &&& said(d.pending[1]).len() == 0
                &&& numbered(d.pending[1]) == (c.snd_nxt + reply.len()) % 0x1_0000_0000
                &&& d.snd_nxt == (numbered(d.pending[1]) + 1) % 0x1_0000_0000
                &&& d.fin_sent
            }
        }),
{
    reveal(netpeer::reply_now);
    let c = n.conns[i];
    assert(services::NEWLINE@ =~= seq![10u8]);
    let reply = services::reply_to(c.request)->0;
    let split = reply.len() as int / 2;
    let back = reply.subrange(split, reply.len() as int);
    let front = reply.subrange(0, split);
    let at = netpeer::plus(c.snd_nxt, split);
    segments_say_what_they_are_given(n, mac, c.local_port, c.guest_port, at, c.rcv_nxt, 0x18u8, back);
    let n1 = netpeer::send_segment(n, c.local_port, c.guest_port, at, c.rcv_nxt, 0x18u8, back).0;
    segments_say_what_they_are_given(n1, mac, c.local_port, c.guest_port, c.snd_nxt, c.rcv_nxt, 0x18u8, front);
    let n2 = netpeer::send_segment(n1, c.local_port, c.guest_port, c.snd_nxt, c.rcv_nxt, 0x18u8, front).0;
    let snd = netpeer::plus(c.snd_nxt, reply.len() as int);
    segments_say_what_they_are_given(n2, mac, c.local_port, c.guest_port, snd, c.rcv_nxt, 0x11u8, seq![]);
    assert(front + back =~= reply);
}

/// Whatever a reply comes to, its segments acknowledge what the connection waits for, and the
/// connection waits for the same as before.
pub proof fn replies_acknowledge_what_arrived(n: Net, mac: Seq<u8>, i: int)
    requires
        n.guest_mac == Some(mac),
        mac.len() == 6,
        0 <= i < n.conns.len(),
        n.conns[i].request.len() <= 50_000,
        n.conns[i].opened is Some ==> n.conns[i].opened->0.tag.len() <= 1_000,
    ensures
        ({
            let (m, out) = netpeer::reply_now(n, i);
            &&& all_acknowledge(out, mac, m.conns[i])
            &&& m.conns.len() == n.conns.len()
            &&& m.conns[i].rcv_nxt == n.conns[i].rcv_nxt
            &&& m.conns[i].request == n.conns[i].request
            &&& m.conns[i].local_port == n.conns[i].local_port
            &&& m.conns[i].guest_port == n.conns[i].guest_port
            &&& m.conns[i].held == n.conns[i].held
        }),
{
    let c = n.conns[i];
    assert(services::NEWLINE@ =~= seq![10u8]);
    replies_keep_the_request(n, i);
    if c.opened is Some {
        reveal(netpeer::reply_now);
        verdicts_acknowledge_what_arrived(n, mac, i);
    } else if !(!c.replied && bytes::ends(c.request, seq![10u8]) && services::reply_to(c.request) is Some) {
        reveal(netpeer::reply_now);
    } else if !c.replied && bytes::ends(c.request, seq![10u8]) && services::reply_to(c.request) is Some {
        replies_are_whole(n, mac, i);
    }
}

/// Every segment that a data segment of the guest's earns carries as its acknowledgement what the
/// connection waits for after that segment was taken, and the first of them is a bare acknowledgement
/// with the connection's own number.
pub proof fn data_is_acknowledged(n: Net, mac: Seq<u8>, i: int, s: u32, payload: Seq<u8>)
    requires
        n.guest_mac == Some(mac),
        mac.len() == 6,
        0 <= i < n.conns.len(),
        netpeer::hear_data(n, i, s, payload).0.conns[i].request.len() <= 50_000,
        n.conns[i].opened is Some ==> n.conns[i].opened->0.tag.len() <= 1_000,
        n.conns[i].dropped || n.conns[i].opened is Some || s != n.conns[i].rcv_nxt,
    ensures
        ({
            let (m, out) = netpeer::hear_data(n, i, s, payload);
            &&& out.len() > 0
            &&& all_acknowledge(out, mac, m.conns[i])
            &&& flags_of(out[0]) == 0x10
            &&& said(out[0]).len() == 0
            &&& numbered(out[0]) == n.conns[i].snd_nxt
        }),
{
    reveal(netpeer::hear_data);
    let c = netpeer::noted(n.conns[i], s, payload.len() as int);
    let t = netpeer::taken(c, s, payload);
    taking_keeps_the_rest(c, s, payload);
    let blocks = netpeer::named(t);
    let m = netpeer::hear_data(n, i, s, payload).0;
    let seen0 = netpeer::counted(n.seen, n.conns[i], s, payload.len() as int);
    let seen1 = if netpeer::is_ahead(c, s) {
        netpeer::Seen { duplicate_acks: (seen0.duplicate_acks + 1) as u64, ..seen0 }
    } else {
        seen0
    };
    let seen2 = if blocks.len() > 0 {
        netpeer::Seen {
            selective_acks: (seen1.selective_acks + 1) as u64,
            blocks_sent: (seen1.blocks_sent + blocks.len()) as u64,
            ..seen1
        }
    } else {
        seen1
    };
    let n0 = Net { seen: seen2, ..netpeer::with_link(n, i, t) };
    let none = Seq::<u8>::empty();
    segments_with_blocks_say_what_they_are_given(
        n0,
        mac,
        t.local_port,
        t.guest_port,
        t.snd_nxt,
        t.rcv_nxt,
        0x10u8,
        blocks,
        none,
    );
    let (n1, a) = netpeer::send_blocks(
        n0,
        t.local_port,
        t.guest_port,
        t.snd_nxt,
        t.rcv_nxt,
        0x10u8,
        blocks,
        none,
    );
    assert(none =~= seq![]);
    assert(n1.conns[i] == t);
    replies_keep_the_request(n1, i);
    assert(netpeer::hear_data(n, i, s, payload).0 == netpeer::reply_now(n1, i).0);
    replies_acknowledge_what_arrived(n1, mac, i);
    let b = netpeer::reply_now(n1, i).1;
    let out = netpeer::hear_data(n, i, s, payload).1;
    assert(out == a + b);
    assert forall|j: int| #![trigger out[j]] 0 <= j < out.len() implies is_segment(
        out[j],
        mac,
        m.conns[i].local_port as int,
        m.conns[i].guest_port as int,
    ) && acked(out[j]) == m.conns[i].rcv_nxt by {
        if j < 1 {
            assert(out[j] == a[j]);
        } else {
            assert(out[j] == b[j - 1]);
        }
    }
    assert(out[0] == a[0]);
}

proof fn replies_keep_the_request(n: Net, i: int)
    requires
        0 <= i < n.conns.len(),
    ensures
        same_stream(netpeer::reply_now(n, i).0, n, i),
{
    reveal(netpeer::reply_now);
    let c = n.conns[i];
    if c.opened is Some {
        verdicts_keep_the_request(n, i);
    } else if services::reply_to(c.request) is Some {
        let reply = services::reply_to(c.request)->0;
        let split = reply.len() as int / 2;
        let back = reply.subrange(split, reply.len() as int);
        let front = reply.subrange(0, split);
        let at = netpeer::plus(c.snd_nxt, split);
        let snd = netpeer::plus(c.snd_nxt, reply.len() as int);
        sending_keeps_connections(n, c.local_port, c.guest_port, at, c.rcv_nxt, 0x18u8, back);
        let n1 = netpeer::send_segment(n, c.local_port, c.guest_port, at, c.rcv_nxt, 0x18u8, back).0;
        sending_keeps_connections(n1, c.local_port, c.guest_port, c.snd_nxt, c.rcv_nxt, 0x18u8, front);
        let n2 = netpeer::send_segment(n1, c.local_port, c.guest_port, c.snd_nxt, c.rcv_nxt, 0x18u8, front).0;
        sending_keeps_connections(n2, c.local_port, c.guest_port, snd, c.rcv_nxt, 0x11u8, seq![]);
    }
}

/// Whether a connection waits for the same bytes between the same ports as before.
spec fn same_stream(m: Net, n: Net, i: int) -> bool {
    &&& m.conns.len() == n.conns.len()
    &&& m.conns[i].request == n.conns[i].request
    &&& m.conns[i].held == n.conns[i].held
    &&& m.conns[i].rcv_nxt == n.conns[i].rcv_nxt
    &&& m.conns[i].local_port == n.conns[i].local_port
    &&& m.conns[i].guest_port == n.conns[i].guest_port
}

proof fn sending_keeps_connections(n: Net, from: u16, to: u16, s: u32, ack: u32, flags: u8, payload: Seq<u8>)
    ensures
        netpeer::send_segment(n, from, to, s, ack, flags, payload).0.conns == n.conns,
{
    reveal(netpeer::send_blocks);
}

proof fn verdicts_keep_the_request(n: Net, i: int)
    requires
        0 <= i < n.conns.len(),
    ensures
        same_stream(netpeer::judge_reply(n, i).0, n, i),
{
    reveal(netpeer::judge_reply);
    let c = n.conns[i];
    if c.opened is Some {
        let line = services::verdict_on(c.request, c.opened->0.tag);
        let after = netpeer::plus(c.snd_nxt, line.len() as int);
        sending_keeps_connections(n, c.local_port, c.guest_port, c.snd_nxt, c.rcv_nxt, 0x18u8, line);
        let n1 = netpeer::send_segment(n, c.local_port, c.guest_port, c.snd_nxt, c.rcv_nxt, 0x18u8, line).0;
        sending_keeps_connections(n1, c.local_port, c.guest_port, after, c.rcv_nxt, 0x11u8, seq![]);
    }
}

proof fn taking_keeps_the_rest(c: Link, s: u32, payload: Seq<u8>)
    ensures
        ({
            let t = netpeer::taken(c, s, payload);
            &&& t.local_port == c.local_port
            &&& t.guest_port == c.guest_port
            &&& t.snd_nxt == c.snd_nxt
            &&& t.opened == c.opened
            &&& t.pending == c.pending
            &&& t.sack_ok == c.sack_ok
        }),
{
    draining_keeps_the_rest(netpeer::took(c, payload));
}

proof fn draining_keeps_the_rest(c: Link)
    ensures
        ({
            let t = netpeer::drained(c);
            &&& t.local_port == c.local_port
            &&& t.guest_port == c.guest_port
            &&& t.snd_nxt == c.snd_nxt
            &&& t.opened == c.opened
            &&& t.pending == c.pending
            &&& t.sack_ok == c.sack_ok
        }),
    decreases c.held.len(),
{
    match netpeer::next_held(c.held, c.rcv_nxt, 0) {
        Some(k) if 0 <= k < c.held.len() => {
            draining_keeps_the_rest(netpeer::took(Link { held: c.held.remove(k), ..c }, c.held[k].1));
        },
        _ => {},
    }
}

/// What becomes of a segment's bytes: they join the stream where they follow on and nothing is held,
/// they wait where they lie past a hole, within half the sequence space, and they are passed over where
/// they were taken before.
pub proof fn bytes_join_or_wait(c: Link, s: u32, payload: Seq<u8>)
    ensures
        ({
            let t = netpeer::taken(c, s, payload);
            let ahead = (s - c.rcv_nxt) % 0x1_0000_0000;
            &&& s == c.rcv_nxt && c.held.len() == 0 ==> t.request == c.request + payload && t.rcv_nxt == (s
                + payload.len()) % 0x1_0000_0000 && t.held.len() == 0
            &&& 0 < ahead < 0x7fff_ffff && (forall|k: int| 0 <= k < c.held.len() ==> (#[trigger] c.held[k]).0 != s)
                ==> t.request == c.request && t.rcv_nxt == c.rcv_nxt && t.held == c.held.push((s, payload))
            &&& ahead >= 0x7fff_ffff ==> t == c
        }),
{
    if s == c.rcv_nxt && c.held.len() == 0 {
        assert(netpeer::next_held(c.held, netpeer::took(c, payload).rcv_nxt, 0) is None);
    }
    if s == c.rcv_nxt {
        assert((s - c.rcv_nxt) % 0x1_0000_0000 == 0);
    }
}

/// Sequence numbers go round: stepping on by one count and then another is stepping on by both, and how
/// far one lies past another is how far it was stepped on.
pub proof fn sequence_numbers_go_round(a: u32, m: int, n: int)
    requires
        0 <= m,
        0 <= n < 0x1_0000_0000,
    ensures
        netpeer::plus(netpeer::plus(a, m), n) == netpeer::plus(a, m + n),
        netpeer::plus(a, n) == if a + n < 0x1_0000_0000 {
            a + n
        } else {
            a + n - 0x1_0000_0000
        },
        netpeer::past(a, netpeer::plus(a, n)) == n,
        0 < n < 0x8000_0000 ==> netpeer::comes_before(a, netpeer::plus(a, n)),
        0x8000_0000 <= n ==> !netpeer::comes_before(a, netpeer::plus(a, n)),
        !netpeer::comes_before(a, a),
{
    vstd::arithmetic::div_mod::lemma_add_mod_noop(a + m, n, 0x1_0000_0000);
    vstd::arithmetic::div_mod::lemma_small_mod(n as nat, 0x1_0000_0000);
    vstd::arithmetic::div_mod::lemma_add_mod_noop((a + m) % 0x1_0000_0000, n, 0x1_0000_0000);
    let p = netpeer::plus(a, n);
    if a + n < 0x1_0000_0000 {
        assert(p == a + n);
    } else {
        assert(p == a + n - 0x1_0000_0000);
        vstd::arithmetic::div_mod::lemma_mod_add_multiples_vanish(n - 0x1_0000_0000, 0x1_0000_0000);
    }
}

proof fn others_are_the_others(conns: Seq<Link>, guest: int, local: int, k: nat, c: Link)
    requires
        k <= conns.len(),
    ensures
        netpeer::others(conns, guest, local, k).contains(c) <==> (exists|j: int|
            0 <= j < k && #[trigger] conns[j] == c) && !(c.guest_port == guest && c.local_port == local),
    decreases k,
{
    if k > 0 {
        others_are_the_others(conns, guest, local, (k - 1) as nat, c);
        let before = netpeer::others(conns, guest, local, (k - 1) as nat);
        let all = netpeer::others(conns, guest, local, k);
        let x = conns[k - 1];
        if x.guest_port == guest && x.local_port == local {
            if exists|j: int| 0 <= j < k && #[trigger] conns[j] == c {
                let j = choose|j: int| 0 <= j < k && #[trigger] conns[j] == c;
                if j == k - 1 {
                    assert(c == x);
                } else {
                    assert(0 <= j < k - 1 && conns[j] == c);
                }
            }
        } else {
            assert(all == before.push(x));
            assert(all[before.len() as int] == x);
            if before.contains(c) {
                let q = before.index_of(c);
                assert(all[q] == c);
            }
            if all.contains(c) {
                let q = choose|q: int| 0 <= q < all.len() && all[q] == c;
                if q < before.len() {
                    assert(before[q] == c);
                } else {
                    assert(conns[k - 1] == c);
                }
            }
            if exists|j: int| 0 <= j < k && #[trigger] conns[j] == c {
                let j = choose|j: int| 0 <= j < k && #[trigger] conns[j] == c;
                if j < k - 1 {
                    assert(0 <= j < k - 1 && conns[j] == c);
                }
            }
        }
    }
}

/// A reset ends the connection between its two ports in silence, and no other.
pub proof fn a_reset_ends_its_connection(n: Net, f: Seq<u8>, c: Link)
    requires
        netpeer::segment_in(n, f) is Some,
        netpeer::segment_in(n, f)->0.flags / 4 % 2 == 1,
    ensures
        ({
            let t = netpeer::segment_in(n, f)->0;
            let (m, out) = netpeer::hear_segment(n, f);
            &&& out.len() == 0
            &&& m.conns.contains(c) <==> n.conns.contains(c) && !(c.guest_port == t.guest_port && c.local_port
                == t.local_port)
        }),
{
    let t = netpeer::segment_in(n, f)->0;
    others_are_the_others(n.conns, t.guest_port, t.local_port, n.conns.len(), c);
    if n.conns.contains(c) {
        let j = n.conns.index_of(c);
        assert(n.conns[j] == c);
    }
}

/// A segment is read where it stands behind a header of the usual length: its ports, its numbers, its
/// flags, and its bytes up to where the packet ends.
pub proof fn segments_are_read_where_they_stand(n: Net, f: Seq<u8>)
    requires
        f.len() >= 54,
        f[14] == 0x45,
        netpeer::segment_in(n, f) is Some,
    ensures
        ({
            let t = netpeer::segment_in(n, f)->0;
            let from = 34 + 4 * (f[46] as int / 16);
            &&& t.guest_port == 0x100 * f[34] + f[35]
            &&& t.local_port == 0x100 * f[36] + f[37]
            &&& t.seq == 0x100_0000 * f[38] + 0x1_0000 * f[39] + 0x100 * f[40] + f[41]
            &&& t.ack == 0x100_0000 * f[42] + 0x1_0000 * f[43] + 0x100 * f[44] + f[45]
            &&& t.flags == f[47]
            &&& t.payload == f.subrange(from, 14 + (0x100 * f[16] + f[17]))
            &&& f.subrange(30, 34) == seq![10u8, 0u8, 2u8, 2u8]
        }),
{
    assert(netpeer::GATEWAY@ =~= seq![10u8, 0u8, 2u8, 2u8]);
}

/// An ARP request for the gateway earns one answer, to the one who asked: the gateway's address is at
/// the gateway's hardware address. Nothing else in ARP earns one.
pub proof fn arp_is_answered_for_the_gateway(n: Net, f: Seq<u8>)
    requires
        f.len() >= 42,
    ensures
        ({
            let out = netpeer::hear_arp(n, f).1;
            let due = f[20] == 0 && f[21] == 1 && f[38] == 10 && f[39] == 0 && f[40] == 2 && f[41] == 2;
            &&& out.len() == if due {
                1int
            } else {
                0int
            }
            &&& due ==> {
                let a = out[0];
                &&& a.len() == 42
                &&& a.subrange(0, 6) == f.subrange(22, 28)
                &&& a.subrange(6, 12) == seq![0x52u8, 0x55u8, 0x0au8, 0u8, 2u8, 2u8]
                &&& a.subrange(12, 20) == seq![8u8, 6u8, 0u8, 1u8, 8u8, 0u8, 6u8, 4u8]
                &&& a[20] == 0
                &&& a[21] == 2
                &&& a.subrange(22, 28) == seq![0x52u8, 0x55u8, 0x0au8, 0u8, 2u8, 2u8]
                &&& a.subrange(28, 32) == seq![10u8, 0u8, 2u8, 2u8]
                &&& a.subrange(32, 38) == f.subrange(22, 28)
                &&& a.subrange(38, 42) == f.subrange(28, 32)
            }
        }),
{
    let w = f.subrange(38, 42);
    if f[38] == 10 && f[39] == 0 && f[40] == 2 && f[41] == 2 {
        assert(w =~= netpeer::GATEWAY@);
    }
    if w == netpeer::GATEWAY@ {
        assert(w[0] == 10 && w[1] == 0 && w[2] == 2 && w[3] == 2);
    }
    if f[20] == 0 && f[21] == 1 && w == netpeer::GATEWAY@ {
        let a = netpeer::arp_answer(f);
        assert(a.subrange(0, 6) =~= f.subrange(22, 28));
        assert(a.subrange(6, 12) =~= seq![0x52u8, 0x55u8, 0x0au8, 0u8, 2u8, 2u8]);
        assert(a.subrange(12, 20) =~= seq![8u8, 6u8, 0u8, 1u8, 8u8, 0u8, 6u8, 4u8]);
        assert(a.subrange(22, 28) =~= seq![0x52u8, 0x55u8, 0x0au8, 0u8, 2u8, 2u8]);
        assert(a.subrange(28, 32) =~= seq![10u8, 0u8, 2u8, 2u8]);
        assert(a.subrange(32, 38) =~= f.subrange(22, 28));
        assert(a.subrange(38, 42) =~= f.subrange(28, 32));
    }
}

/// An echo request to the gateway earns the same message back: from the gateway, to who sent it, as an
/// echo reply, with everything behind its checksum unchanged, and with checksums that verify.
pub proof fn echoes_come_back(mac: Seq<u8>, f: Seq<u8>)
    requires
        mac.len() == 6,
        wire::packet(f) is Some,
        f.len() > 34,
        f[14] == 0x45,
        netpeer::echo_answer(Some(mac), f) is Some,
    ensures
        ({
            let e = netpeer::echo_answer(Some(mac), f)->0;
            let total = 0x100 * f[16] + f[17];
            &&& f[34] == 8
            &&& e.len() == 14 + total
            &&& e.subrange(0, 6) == mac
            &&& e.subrange(14, 22) == f.subrange(14, 22)
            &&& e[22] == 64
            &&& e[23] == f[23]
            &&& e.subrange(26, 30) == seq![10u8, 0u8, 2u8, 2u8]
            &&& e.subrange(30, 34) == f.subrange(26, 30)
            &&& e[34] == 0
            &&& e[35] == f[35]
            &&& e.subrange(38, 14 + total) == f.subrange(38, 14 + total)
            &&& wire::checksum(e.subrange(14, 34)) == 0
            &&& wire::checksum(e.subrange(34, 14 + total)) == 0
        }),
{
    let (ihl, total) = wire::packet(f)->0;
    let e = netpeer::echo_answer(Some(mac), f)->0;
    let h = f.subrange(14, 34);
    let back = bytes::splice(h.update(8, 64u8), 12, netpeer::GATEWAY@ + h.subrange(12, 16));
    let z = bytes::splice(back, 10, bytes::zeros(2));
    wire::checksums_verify(z, 10);
    let m = f.subrange(34, 14 + total).update(0, 0u8);
    let y = bytes::splice(m, 2, bytes::zeros(2));
    wire::checksums_verify(y, 2);
    assert(e.subrange(0, 6) =~= mac);
    assert(e.subrange(14, 34) =~= netpeer::echo_header(h));
    assert(e.subrange(34, 14 + total) =~= netpeer::icmp_summed(m));
    let (a, b) = (e.subrange(14, 34), e.subrange(34, 14 + total));
    assert forall|i: int| 0 <= i < 20 implies #[trigger] a[i] == e[14 + i] by {}
    assert forall|i: int| 0 <= i < b.len() implies #[trigger] b[i] == e[34 + i] by {}
    assert(a[8] == 64 && a[9] == h[9]);
    assert(e.subrange(14, 22) =~= f.subrange(14, 22)) by {
        assert forall|i: int| 0 <= i < 8 implies e.subrange(14, 22)[i] == f.subrange(14, 22)[i] by {
            assert(a[i] == h[i]);
        }
    }
    assert(e.subrange(26, 30) =~= seq![10u8, 0u8, 2u8, 2u8]) by {
        assert(a[12] == 10 && a[13] == 0 && a[14] == 2 && a[15] == 2);
    }
    assert(e.subrange(30, 34) =~= f.subrange(26, 30)) by {
        assert forall|i: int| 0 <= i < 4 implies e.subrange(30, 34)[i] == f.subrange(26, 30)[i] by {
            assert(a[16 + i] == h.subrange(12, 16)[i]);
        }
    }
    assert(b[0] == 0 && b[1] == f[35]);
    let (x, y) = (e.subrange(38, 14 + total), f.subrange(38, 14 + total));
    assert forall|i: int| 0 <= i < x.len() implies #[trigger] x[i] == y[i] by {
        assert(b[4 + i] == m[4 + i]);
    }
    assert(x =~= y);
}

/// Whether a datagram of this end's goes between two ports and carries `payload`.
pub open spec fn is_datagram(f: Seq<u8>, mac: Seq<u8>, from: int, to: int, payload: Seq<u8>) -> bool {
    &&& f.len() == 42 + payload.len()
    &&& is_packet(f, mac, 17, f.subrange(34, f.len() as int))
    &&& bytes::be16(f, 34) == from
    &&& bytes::be16(f, 36) == to
    &&& bytes::be16(f, 38) == 8 + payload.len()
    &&& f.subrange(42, f.len() as int) == payload
}

/// A datagram goes out between its two ports with its payload whole.
pub proof fn datagrams_say_what_they_are_given(n: Net, mac: Seq<u8>, from: u16, to: u16, payload: Seq<u8>)
    requires
        n.guest_mac == Some(mac),
        mac.len() == 6,
        payload.len() <= 60_000,
    ensures
        ({
            let (m, out) = netpeer::send_datagram(n, from, to, payload);
            &&& out.len() == 1
            &&& is_datagram(out[0], mac, from as int, to as int, payload)
            &&& m.seen == n.seen
            &&& m.conns == n.conns
            &&& m.tags == n.tags
            &&& m.guest_mac == n.guest_mac
        }),
{
    reveal(netpeer::datagram_body);
    let b = netpeer::bare_datagram(from, to, payload);
    let body = netpeer::datagram_body(from, to, payload);
    bytes::be16_of_bytes(from as int);
    bytes::be16_of_bytes(to as int);
    bytes::be16_of_bytes(8 + payload.len() as int);
    assert(body.len() == 8 + payload.len());
    assert forall|i: int| 0 <= i < body.len() && i != 6 && i != 7 implies #[trigger] body[i] == b[i] by {}
    assert(bytes::be16(body, 0) == from);
    assert(bytes::be16(body, 2) == to);
    assert(bytes::be16(body, 4) == 8 + payload.len());
    assert(body.subrange(8, body.len() as int) =~= payload);
    packets_go_to_the_guest(n, mac, 17u8, body);
    let f = netpeer::send(n, 17u8, body).1[0];
    let top: int = 34;
    assert forall|i: int| 0 <= i < body.len() implies #[trigger] body[i] == f[top + i] by {
        assert(f.subrange(34, f.len() as int)[i] == f[top + i]);
    }
    assert(bytes::be16(f, 34) == bytes::be16(body, 0));
    assert(bytes::be16(f, 36) == bytes::be16(body, 2));
    assert(bytes::be16(f, 38) == bytes::be16(body, 4));
    assert(f.subrange(42, f.len() as int) =~= payload) by {
        assert forall|i: int| 0 <= i < payload.len() implies f.subrange(42, f.len() as int)[i] == payload[i] by {
            assert(body[8 + i] == f[top + (8 + i)]);
            assert(body.subrange(8, body.len() as int)[i] == body[8 + i]);
        }
    }
}

/// What the guest's datagrams earn: an echo of an announcement its acknowledgement, a request to the
/// service its reply, each with what stood behind the word that it began with, from the port that it
/// went to and to the port that it came from.
pub proof fn datagrams_earn_their_answer(n: Net, mac: Seq<u8>, f: Seq<u8>, from: int, to: int, rest: Seq<u8>)
    requires
        n.guest_mac == Some(mac),
        mac.len() == 6,
        0 <= from <= 0xffff,
        rest.len() <= 50_000,
    ensures
        ({
            let (m, out) = netpeer::hear_datagram(n, f);
            let echo = wire::NET_ECHO@ + rest;
            let request = wire::NET_UDP_REQUEST@ + rest;
            &&& netpeer::datagram_in(f) == Some((from, to, echo)) && to == n.ports.udp ==> out.len() == 1
                && is_datagram(out[0], mac, to, from, wire::NET_ACK@ + rest) && m.seen.acks_sent == (n.seen.acks_sent
                + 1) as u64
            &&& netpeer::datagram_in(f) == Some((from, to, request)) && to == n.ports.udp_service && to
                != n.ports.udp ==> out.len() == 1 && is_datagram(out[0], mac, to, from, wire::NET_UDP_REPLY@ + rest)
            &&& netpeer::datagram_in(f) is None ==> out.len() == 0 && m == n
        }),
{
    let echo = wire::NET_ECHO@ + rest;
    let request = wire::NET_UDP_REQUEST@ + rest;
    let k1 = wire::NET_ECHO@.len() as int;
    let k2 = wire::NET_UDP_REQUEST@.len() as int;
    assert(echo.subrange(0, k1) =~= wire::NET_ECHO@);
    assert(echo.subrange(k1, echo.len() as int) =~= rest);
    assert(request.subrange(0, k2) =~= wire::NET_UDP_REQUEST@);
    assert(request.subrange(k2, request.len() as int) =~= rest);
    if netpeer::datagram_in(f) == Some((from, to, echo)) && to == n.ports.udp {
        datagrams_say_what_they_are_given(
            Net { seen: netpeer::Seen { acks_sent: (n.seen.acks_sent + 1) as u64, ..n.seen }, ..n },
            mac,
            n.ports.udp,
            from as u16,
            wire::NET_ACK@ + rest,
        );
    }
    if netpeer::datagram_in(f) == Some((from, to, request)) && to == n.ports.udp_service {
        datagrams_say_what_they_are_given(
            Net { seen: netpeer::Seen { service_replies: (n.seen.service_replies + 1) as u64, ..n.seen }, ..n },
            mac,
            n.ports.udp_service,
            from as u16,
            wire::NET_UDP_REPLY@ + rest,
        );
    }
}

/// `n` with one more refusal counted.
spec fn with_one_refusal(n: Net) -> Net {
    Net { seen: netpeer::Seen { refusals: (n.seen.refusals + 1) as u64, ..n.seen }, ..n }
}

/// A datagram to the quiet port is refused: the guest hears that the port is unreachable, with the
/// header of its own packet and the eight bytes behind it quoted.
pub proof fn the_quiet_port_refuses(n: Net, mac: Seq<u8>, f: Seq<u8>, from: int, to: int, payload: Seq<u8>)
    requires
        n.guest_mac == Some(mac),
        mac.len() == 6,
        f.len() >= 42,
        f[14] == 0x45,
        netpeer::datagram_in(f) == Some((from, to, payload)),
        to == n.ports.quiet,
        to != n.ports.udp,
        to != n.ports.udp_service,
    ensures
        ({
            let (m, out) = netpeer::hear_datagram(n, f);
            &&& out.len() == 1
            &&& out[0].len() == 70
            &&& is_packet(out[0], mac, 1, out[0].subrange(34, 70))
            &&& out[0][34] == 3
            &&& out[0][35] == 3
            &&& out[0].subrange(42, 70) == f.subrange(14, 42)
            &&& wire::checksum(out[0].subrange(34, 70)) == 0
            &&& m.conns == n.conns
        }),
{
    let quoted = f.subrange(14, 42);
    let bare = seq![3u8, 3u8, 0u8, 0u8, 0u8, 0u8, 0u8, 0u8] + quoted;
    let body = netpeer::refusal(f, 20);
    assert(body == netpeer::icmp_summed(bare));
    let z = bytes::splice(bare, 2, bytes::zeros(2));
    wire::checksums_verify(z, 2);
    assert(body.len() == 36);
    assert(body[0] == 3 && body[1] == 3);
    assert(body.subrange(8, 36) =~= quoted);
    let n0 = with_one_refusal(n);
    packets_go_to_the_guest(n0, mac, 1u8, body);
    let g = netpeer::send(n0, 1u8, body).1[0];
    let top: int = 34;
    assert(g.subrange(34, 70) =~= body);
    assert forall|i: int| 0 <= i < body.len() implies #[trigger] body[i] == g[top + i] by {
        assert(g.subrange(34, 70)[i] == g[top + i]);
    }
    assert(g[34] == body[0] && g[35] == body[1]);
    assert(g.subrange(42, 70) =~= quoted) by {
        assert forall|i: int| 0 <= i < 28 implies g.subrange(42, 70)[i] == quoted[i] by {
            assert(body[8 + i] == g[top + (8 + i)]);
            assert(body.subrange(8, 36)[i] == body[8 + i]);
        }
    }
}

/// A listener that is announced for the first time is connected to: a SYN goes out to the guest's port
/// from a port of this end's own, and the connection continues behind its number. The next connection
/// gets another port.
pub proof fn listeners_are_connected_to(n: Net, mac: Seq<u8>, tag: Seq<u8>)
    requires
        n.guest_mac == Some(mac),
        mac.len() == 6,
        !n.tags.contains(tag),
        forall|i: int| 0 <= i < n.conns.len() && (#[trigger] n.conns[i]).opened is Some ==> n.conns[i].opened->0.tag
            != tag,
    ensures
        ({
            let (m, out) = netpeer::hear_listener(n, tag);
            let k = n.conns.len() as int;
            &&& out.len() == 1
            &&& is_segment(out[0], mac, n.next_local as int, wire::NET_GUEST_TCP_PORT as int)
            &&& flags_of(out[0]) == 2
            &&& m.tags.contains(tag)
            &&& m.conns.len() == k + 1
            &&& m.conns[k].local_port == n.next_local
            &&& m.conns[k].guest_port == wire::NET_GUEST_TCP_PORT
            &&& m.conns[k].snd_nxt == (numbered(out[0]) + 1) % 0x1_0000_0000
            &&& m.conns[k].opened == Some(netpeer::Visit { tag, established: false, judged: false })
            &&& m.next_local != n.next_local
            &&& n.next_local >= 49_152 ==> m.next_local >= 49_152
        }),
{
    nobody_waits(n.conns, tag, 0);
    let local = n.next_local;
    let isn = netpeer::plus(0x5000_0000, 0x100 * local);
    let n1 = Net { tags: n.tags.push(tag), ..n };
    assert(n1.tags[n.tags.len() as int] == tag);
    let link = netpeer::fresh(
        wire::NET_GUEST_TCP_PORT,
        local,
        netpeer::plus(isn, 1),
        0,
        false,
        Some(netpeer::Visit { tag, established: false, judged: false }),
    );
    let n2 = Net {
        next_local: netpeer::port_after(local),
        conns: n1.conns.push(link),
        seen: netpeer::Seen { opened: (n1.seen.opened + 1) as u64, ..n1.seen },
        ..n1
    };
    segments_say_what_they_are_given(n2, mac, local, wire::NET_GUEST_TCP_PORT, isn, 0, 2u8, seq![]);
    reveal(netpeer::send_blocks);
}

proof fn nobody_waits(conns: Seq<Link>, tag: Seq<u8>, i: int)
    requires
        0 <= i,
        forall|j: int| 0 <= j < conns.len() && (#[trigger] conns[j]).opened is Some ==> conns[j].opened->0.tag != tag,
    ensures
        netpeer::waiting(conns, tag, i) is None,
    decreases conns.len() - i,
{
    if i < conns.len() {
        let c = conns[i];
        nobody_waits(conns, tag, i + 1);
    }
}

} // verus!
