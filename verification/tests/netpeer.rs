//! The host as the whole network.

use kbuild::netpeer::{
    tcp_options, Peer, Seen, ARP_REPLY, ARP_REQUEST, ETHERTYPE_ARP, ETHERTYPE_IPV4, FIRST_LOCAL_PORT, GATEWAY, GUEST,
    ICMP_ECHO_REPLY, ICMP_ECHO_REQUEST, ICMP_PORT_UNREACHABLE, ICMP_UNREACHABLE, PEER_MAC, PROTO_ICMP, PROTO_TCP,
    PROTO_UDP, TCP_ACK, TCP_FIN, TCP_OPT_END, TCP_OPT_MSS, TCP_OPT_NOP, TCP_OPT_SACK, TCP_OPT_SACK_PERMITTED, TCP_PSH,
    TCP_SYN,
};
use kbuild::qemu::wire::{
    ipv4_checksum, ipv4_header, NET_FRAGMENT_PATTERN, NET_GUEST_PORT, NET_GUEST_TCP_PORT, NET_PROBE, NET_TCP_LISTENING,
    NET_UDP_FRAGMENTED,
};
use kbuild::qemu::NetPorts;

const GUEST_MAC: [u8; 6] = [0x52, 0x54, 0x00, 0x12, 0x34, 0x56];

fn ports() -> NetPorts {
    NetPorts {
        udp: 40001,
        tcp: 40002,
        relay_out: 0,
        relay_in: 0,
        down_out: 0,
        down_in: 0,
        inbound: 0,
        udp_service: 40003,
        quiet: 40004,
        peer_local: 0,
        peer_remote: 0,
    }
}

fn peer() -> Peer {
    Peer {
        ports: ports(),
        guest_mac: Some(GUEST_MAC),
        ip_id: 1,
        conns: Vec::new(),
        tags: Vec::new(),
        next_local: FIRST_LOCAL_PORT,
        seen: Seen::new(),
    }
}

fn request(target: [u8; 4]) -> Vec<u8> {
    let mut f = Vec::new();
    f.extend_from_slice(&[0xff; 6]);
    f.extend_from_slice(&GUEST_MAC);
    f.extend_from_slice(&ETHERTYPE_ARP);
    f.extend_from_slice(&[0, 1, 0x08, 0x00, 6, 4]);
    f.extend_from_slice(&ARP_REQUEST.to_be_bytes());
    f.extend_from_slice(&GUEST_MAC);
    f.extend_from_slice(&GUEST);
    f.extend_from_slice(&[0; 6]);
    f.extend_from_slice(&target);
    f
}

/// A datagram from the guest to `to` at `dst`, carrying `payload`.
fn datagram(dst: [u8; 4], from: u16, to: u16, payload: &[u8]) -> Vec<u8> {
    let total = 20 + 8 + payload.len();
    let mut f = Vec::new();
    f.extend_from_slice(&PEER_MAC);
    f.extend_from_slice(&GUEST_MAC);
    f.extend_from_slice(&ETHERTYPE_IPV4);
    f.push(0x45);
    f.push(0);
    f.extend_from_slice(&(total as u16).to_be_bytes());
    f.extend_from_slice(&[0, 7]);
    f.extend_from_slice(&[0, 0]);
    f.push(64);
    f.push(PROTO_UDP);
    f.extend_from_slice(&[0, 0]);
    f.extend_from_slice(&GUEST);
    f.extend_from_slice(&dst);
    f.extend_from_slice(&from.to_be_bytes());
    f.extend_from_slice(&to.to_be_bytes());
    f.extend_from_slice(&((8 + payload.len()) as u16).to_be_bytes());
    f.extend_from_slice(&[0, 0]);
    f.extend_from_slice(payload);
    f
}

/// An echo request from the guest to `dst`, with `id` and `seq`.
fn echo(dst: [u8; 4], id: u16, seq: u16) -> Vec<u8> {
    let total = 20 + 8 + 4;
    let mut f = Vec::new();
    f.extend_from_slice(&PEER_MAC);
    f.extend_from_slice(&GUEST_MAC);
    f.extend_from_slice(&ETHERTYPE_IPV4);
    f.push(0x45);
    f.push(0);
    f.extend_from_slice(&(total as u16).to_be_bytes());
    f.extend_from_slice(&[0, 9]);
    f.extend_from_slice(&[0, 0]);
    f.push(64);
    f.push(PROTO_ICMP);
    f.extend_from_slice(&[0, 0]);
    f.extend_from_slice(&GUEST);
    f.extend_from_slice(&dst);
    f.push(ICMP_ECHO_REQUEST);
    f.push(0);
    f.extend_from_slice(&[0, 0]);
    f.extend_from_slice(&id.to_be_bytes());
    f.extend_from_slice(&seq.to_be_bytes());
    f.extend_from_slice(b"abcd");
    f
}

/// The payload of a datagram frame, and the ports it carries.
fn udp_parts(frame: &[u8]) -> (u16, u16, Vec<u8>) {
    let (ihl, total) = ipv4_header(frame).expect("a whole datagram");
    let udp = 14 + ihl;
    (
        u16::from_be_bytes([frame[udp], frame[udp + 1]]),
        u16::from_be_bytes([frame[udp + 2], frame[udp + 3]]),
        frame[udp + 8..14 + total].to_vec(),
    )
}

#[test]
fn a_request_for_the_gateway_is_answered_from_its_own_address() {
    let mut p = peer();
    let reply = p.arp_reply(&request(GATEWAY)).expect("answered");
    assert_eq!(reply.len(), 42);
    assert_eq!(&reply[0..6], &GUEST_MAC); // to the asker
    assert_eq!(&reply[6..12], &PEER_MAC);
    assert_eq!(u16::from_be_bytes([reply[20], reply[21]]), ARP_REPLY);
    assert_eq!(&reply[22..28], &PEER_MAC);
    assert_eq!(&reply[28..32], &GATEWAY);
    assert_eq!(&reply[38..42], &GUEST); // back to the guest
    assert_eq!(p.seen.arp_requests, 1);
}

#[test]
fn a_request_for_another_address_is_not_answered() {
    let mut p = peer();
    assert!(p.arp_reply(&request([10, 0, 2, 99])).is_none());
    assert_eq!(p.seen.arp_requests, 1, "counted, but not ours to answer");
}

#[test]
fn a_reply_is_not_mistaken_for_a_request() {
    let mut p = peer();
    let mut f = request(GATEWAY);
    f[20..22].copy_from_slice(&ARP_REPLY.to_be_bytes());
    assert!(p.arp_reply(&f).is_none());
    assert_eq!(p.seen.arp_requests, 0);
}

#[test]
fn a_short_frame_is_refused_rather_than_indexed_past() {
    let mut p = peer();
    assert!(p.arp_reply(&[0u8; 20]).is_none());
    assert!(p.echo_reply(&[0u8; 20]).is_none());
    assert!(p.udp(&[0u8; 20]).is_empty());
    assert!(p.answer(&[0u8; 8]).is_empty());
}

#[test]
fn an_echo_request_is_answered_with_its_own_identifier_and_sequence() {
    let mut p = peer();
    let reply = p.echo_reply(&echo(GATEWAY, 0x4b54, 3)).expect("answered");
    let (ihl, _) = ipv4_header(&reply).expect("a whole datagram");
    let icmp = 14 + ihl;
    assert_eq!(reply[icmp], ICMP_ECHO_REPLY);
    assert_eq!(u16::from_be_bytes([reply[icmp + 4], reply[icmp + 5]]), 0x4b54);
    assert_eq!(u16::from_be_bytes([reply[icmp + 6], reply[icmp + 7]]), 3);
    assert_eq!(&reply[icmp + 8..icmp + 12], b"abcd", "the body comes back");
    assert_eq!(&reply[26..30], &GATEWAY, "from the gateway");
    assert_eq!(&reply[30..34], &GUEST, "to the asker");
    // A checksum computed over a datagram that carries its own is zero when it is right.
    assert_eq!(ipv4_checksum(&reply[14..14 + ihl]), 0);
    assert_eq!(ipv4_checksum(&reply[icmp..]), 0);
}

#[test]
fn an_echo_request_for_another_address_is_not_answered() {
    let mut p = peer();
    assert!(p.echo_reply(&echo([10, 0, 2, 99], 0x4b54, 1)).is_none());
}

#[test]
fn an_echo_earns_the_acknowledgement_that_names_it() {
    let mut p = peer();
    let frame = datagram(GATEWAY, NET_GUEST_PORT, p.ports.udp, b"kintane-udp-echo 7");
    let answer = p.udp(&frame);
    assert_eq!(answer.len(), 1, "one acknowledgement");
    let reply = &answer[0];
    let (from, to, payload) = udp_parts(&reply);
    assert_eq!(payload, b"kintane-udp-ack 7");
    assert_eq!(from, ports().udp, "from the port the probe came from");
    assert_eq!(to, NET_GUEST_PORT);
    assert_eq!(p.seen.acks_sent, 1);
}

#[test]
fn a_request_to_the_service_earns_the_reply_that_names_its_tag() {
    let mut p = peer();
    let frame = datagram(GATEWAY, 49152, p.ports.udp_service, b"kintane-udp-request 42");
    let answer = p.udp(&frame);
    assert_eq!(answer.len(), 1, "one reply");
    let reply = &answer[0];
    let (from, to, payload) = udp_parts(&reply);
    assert_eq!(payload, b"kintane-udp-reply 42");
    assert_eq!(from, ports().udp_service);
    assert_eq!(to, 49152, "back to the port that asked");
}

#[test]
fn the_quiet_port_refuses_rather_than_answering() {
    let mut p = peer();
    let quiet = p.ports.quiet;
    let frame = datagram(GATEWAY, 49152, quiet, b"kintane-udp-request 42");
    let out = p.udp(&frame);
    assert_eq!(out.len(), 1, "a refusal, not a reply");
    assert_eq!(p.seen.service_replies, 0, "nothing answered the datagram itself");
    assert_eq!(p.seen.refusals, 1);
    let m = &out[0];
    assert_eq!(m[23], PROTO_ICMP);
    let (ihl, total) = ipv4_header(m).expect("a whole datagram");
    let icmp = 14 + ihl;
    assert_eq!(m[icmp], ICMP_UNREACHABLE);
    assert_eq!(m[icmp + 1], ICMP_PORT_UNREACHABLE);
    assert_eq!(&m[26..30], &GATEWAY, "from the gateway");
    assert_eq!(&m[30..34], &GUEST, "to the guest");
    // A checksum computed over a message that carries its own is zero when it is right.
    assert_eq!(ipv4_checksum(&m[14..14 + ihl]), 0);
    assert_eq!(ipv4_checksum(&m[icmp..14 + total]), 0);
    // The quoted header and the eight bytes behind it, which is what names the socket the
    // refusal belongs to: our datagram, and the two ports it carried.
    let quoted = icmp + 8;
    assert_eq!(&m[quoted + 12..quoted + 16], &GUEST, "the datagram was the guest's");
    assert_eq!(&m[quoted + 16..quoted + 20], &GATEWAY);
    let ports = quoted + 20;
    assert_eq!(u16::from_be_bytes([m[ports], m[ports + 1]]), 49152, "from");
    assert_eq!(u16::from_be_bytes([m[ports + 2], m[ports + 3]]), quiet, "to");
}

#[test]
fn a_datagram_for_another_address_is_not_answered() {
    let mut p = peer();
    let frame = datagram([10, 0, 2, 99], NET_GUEST_PORT, p.ports.udp, b"kintane-udp-echo 1");
    assert!(p.udp(&frame).is_empty());
}

/// The parts of a segment, for a test that needs to look inside one.
fn tcp_parts(frame: &[u8]) -> (u16, u16, u32, u32, u8, Vec<u8>) {
    let (ihl, total) = ipv4_header(frame).expect("a whole datagram");
    let at = 14 + ihl;
    let from = u16::from_be_bytes([frame[at], frame[at + 1]]);
    let to = u16::from_be_bytes([frame[at + 2], frame[at + 3]]);
    let seq = u32::from_be_bytes(frame[at + 4..at + 8].try_into().unwrap());
    let ack = u32::from_be_bytes(frame[at + 8..at + 12].try_into().unwrap());
    let header = usize::from(frame[at + 12] >> 4) * 4;
    let flags = frame[at + 13];
    (from, to, seq, ack, flags, frame[at + header..14 + total].to_vec())
}

/// The guest's announcement that a listener is up, carrying `tag`.
fn listening(p: &Peer, tag: &[u8]) -> Vec<u8> {
    let payload = [&NET_TCP_LISTENING[..], tag].concat();
    datagram(GATEWAY, NET_GUEST_PORT, p.ports.udp, &payload)
}

/// The guest's answer to a SYN, for the connection `syn` opened.
fn syn_ack(syn: &[u8], guest_isn: u32) -> Vec<u8> {
    let (from, to, seq, _, _, _) = tcp_parts(syn);
    // The guest answers from the port the SYN was addressed to, back to the one it came
    // from: this end's chosen port.
    segment_from(to, from, guest_isn, seq.wrapping_add(1), TCP_SYN | TCP_ACK, &[])
}

/// One segment from the guest, as `-netdev dgram` would hand it over.
fn segment_from(from: u16, to: u16, seq: u32, ack: u32, flags: u8, payload: &[u8]) -> Vec<u8> {
    let total = 20 + 20 + payload.len();
    let mut f = Vec::with_capacity(14 + total);
    f.extend_from_slice(&PEER_MAC);
    f.extend_from_slice(&GUEST_MAC);
    f.extend_from_slice(&ETHERTYPE_IPV4);
    f.push(0x45);
    f.push(0);
    f.extend_from_slice(&(total as u16).to_be_bytes());
    f.extend_from_slice(&[0, 1]);
    f.extend_from_slice(&[0, 0]);
    f.push(64);
    f.push(PROTO_TCP);
    f.extend_from_slice(&[0, 0]);
    f.extend_from_slice(&GUEST);
    f.extend_from_slice(&GATEWAY);
    f.extend_from_slice(&from.to_be_bytes());
    f.extend_from_slice(&to.to_be_bytes());
    f.extend_from_slice(&seq.to_be_bytes());
    f.extend_from_slice(&ack.to_be_bytes());
    f.push(5 << 4);
    f.push(flags);
    f.extend_from_slice(&[0xff, 0xff]);
    f.extend_from_slice(&[0, 0]);
    f.extend_from_slice(&[0, 0]);
    f.extend_from_slice(payload);
    f
}

/// The four option bytes that offer selective acknowledgement, padded as they go on a SYN.
const SACK_PERMITTED_OPT: [u8; 4] = [TCP_OPT_NOP, TCP_OPT_NOP, TCP_OPT_SACK_PERMITTED, 2];

/// One segment from the guest carrying `options`, which must be a whole number of words.
#[allow(clippy::too_many_arguments)]
fn segment_opts(
    from: u16,
    to: u16,
    seq: u32,
    ack: u32,
    flags: u8,
    options: &[u8],
    payload: &[u8],
) -> Vec<u8> {
    assert_eq!(options.len() % 4, 0, "a header is a whole number of words");
    let header = 20 + options.len();
    let total = 20 + header + payload.len();
    let mut f = Vec::with_capacity(14 + total);
    f.extend_from_slice(&PEER_MAC);
    f.extend_from_slice(&GUEST_MAC);
    f.extend_from_slice(&ETHERTYPE_IPV4);
    f.push(0x45);
    f.push(0);
    f.extend_from_slice(&(total as u16).to_be_bytes());
    f.extend_from_slice(&[0, 1]);
    f.extend_from_slice(&[0, 0]);
    f.push(64);
    f.push(PROTO_TCP);
    f.extend_from_slice(&[0, 0]);
    f.extend_from_slice(&GUEST);
    f.extend_from_slice(&GATEWAY);
    f.extend_from_slice(&from.to_be_bytes());
    f.extend_from_slice(&to.to_be_bytes());
    f.extend_from_slice(&seq.to_be_bytes());
    f.extend_from_slice(&ack.to_be_bytes());
    f.push(((header / 4) as u8) << 4);
    f.push(flags);
    f.extend_from_slice(&[0xff, 0xff]);
    f.extend_from_slice(&[0, 0]);
    f.extend_from_slice(&[0, 0]);
    f.extend_from_slice(options);
    f.extend_from_slice(payload);
    f
}

/// The selective blocks a segment this end sent names.
fn blocks_of(frame: &[u8]) -> Vec<(u32, u32)> {
    let (ihl, _) = ipv4_header(frame).expect("a whole datagram");
    let at = 14 + ihl;
    let header = usize::from(frame[at + 12] >> 4) * 4;
    let opts = &frame[at + 20..at + header];
    let mut out = Vec::new();
    let mut i = 0;
    while i < opts.len() {
        match opts[i] {
            TCP_OPT_END => break,
            TCP_OPT_NOP => i += 1,
            kind => {
                let n = usize::from(opts[i + 1]);
                if kind == TCP_OPT_SACK {
                    let mut b = i + 2;
                    while b + 8 <= i + n {
                        let word =
                            |o: usize| u32::from_be_bytes(opts[o..o + 4].try_into().unwrap());
                        out.push((word(b), word(b + 4)));
                        b += 8;
                    }
                }
                i += n;
            }
        }
    }
    out
}

#[test]
fn the_handshake_offers_selective_acknowledgement() {
    let mut p = peer();
    let service = p.ports.tcp;
    let syn = segment_opts(40000, service, 500, 0, TCP_SYN, &SACK_PERMITTED_OPT, &[]);
    let out = p.tcp(&syn);
    assert_eq!(out.len(), 1, "the handshake");
    let (ihl, _) = ipv4_header(&out[0]).expect("a whole datagram");
    let at = 14 + ihl;
    let header = usize::from(out[0][at + 12] >> 4) * 4;
    let (permitted, blocks) = tcp_options(&out[0][at + 20..at + header]);
    assert!(permitted, "the guest is told it may act on blocks");
    assert_eq!(blocks, 0, "a SYN has nothing held to report");
    // The segment size is still offered beside it: 1460, high byte first.
    assert_eq!(&out[0][at + 20..at + 24], &[TCP_OPT_MSS, 4, 0x05, 0xb4]);
}

#[test]
fn the_runs_held_past_a_hole_are_named_nearest_first_and_joined() {
    let mut p = peer();
    let (guest, isn) = (40001u16, 900u32);
    let service = p.ports.tcp;
    let syn = segment_opts(guest, service, isn, 0, TCP_SYN, &SACK_PERMITTED_OPT, &[]);
    assert_eq!(p.tcp(&syn).len(), 1);
    let first = isn + 1;
    let seg = |n: u32, body: &'static [u8]| {
        segment_opts(guest, service, first + n, 0, TCP_ACK | TCP_PSH, &[], body)
    };
    // The first in-order segment is the one this end drops, so everything behind it lands
    // past a hole and has somewhere to be held.
    assert!(p.tcp(&seg(0, b"aa")).is_empty(), "dropped, and in silence");
    let out = p.tcp(&seg(4, b"ee"));
    assert_eq!(blocks_of(&out[0]), vec![(first + 4, first + 6)], "the one run held");
    // A run that meets the one already held is joined to it rather than named twice.
    let out = p.tcp(&seg(2, b"cc"));
    assert_eq!(
        blocks_of(&out[0]),
        vec![(first + 2, first + 6)],
        "adjacent runs are one block, and the nearest comes first"
    );
    assert_eq!(p.seen.selective_acks, 2);
}

#[test]
fn a_guest_that_offered_nothing_is_sent_no_blocks() {
    let mut p = peer();
    let (guest, isn) = (40003u16, 700u32);
    let service = p.ports.tcp;
    // A SYN with no options at all: this guest never asked for selective acknowledgement,
    // so nothing may be sent to it however much is held.
    assert_eq!(
        p.tcp(&segment_from(guest, service, isn, 0, TCP_SYN, &[]))
            .len(),
        1
    );
    let first = isn + 1;
    assert!(
        p.tcp(&segment_from(guest, service, first, 0, TCP_ACK | TCP_PSH, b"aa"))
            .is_empty()
    );
    let out = p.tcp(&segment_from(guest, service, first + 4, 0, TCP_ACK | TCP_PSH, b"ee"));
    assert!(blocks_of(&out[0]).is_empty(), "it never asked for them");
    assert_eq!(p.seen.blocks_sent, 0);
}

#[test]
fn blocks_the_guest_sends_of_its_own_are_counted() {
    let mut p = peer();
    let (guest, isn) = (40004u16, 300u32);
    let service = p.ports.tcp;
    let syn = segment_opts(guest, service, isn, 0, TCP_SYN, &SACK_PERMITTED_OPT, &[]);
    assert_eq!(p.tcp(&syn).len(), 1);
    // The guest's own receiver reporting a run it holds past a hole of its own.
    let mut option = vec![TCP_OPT_NOP, TCP_OPT_NOP, TCP_OPT_SACK, 10];
    option.extend_from_slice(&100u32.to_be_bytes());
    option.extend_from_slice(&200u32.to_be_bytes());
    let _ = p.tcp(&segment_opts(guest, service, isn + 1, 0, TCP_ACK, &option, &[]));
    assert_eq!(p.seen.guest_blocks, 1);
}

#[test]
fn an_announced_listener_earns_a_connection_to_it() {
    let mut p = peer();
    let out = p.udp(&listening(&p, b"12345"));
    assert_eq!(out.len(), 1, "the SYN");
    let (from, to, _, ack, flags, _) = tcp_parts(&out[0]);
    assert_eq!(flags, TCP_SYN, "a SYN alone: this end opens the connection");
    assert_eq!(ack, 0, "nothing to acknowledge yet");
    assert_eq!(to, NET_GUEST_TCP_PORT, "to the guest's listener");
    assert_eq!(from, FIRST_LOCAL_PORT, "from a port of this end's own");
    assert_eq!(p.seen.opened, 1);
}

#[test]
fn the_same_listener_announced_again_is_not_a_second_connection() {
    let mut p = peer();
    let first = p.udp(&listening(&p, b"12345"));
    assert_eq!(first.len(), 1);
    // Established, so a repeat has nothing left to do.
    let established = syn_ack(&first[0], 0x9000);
    let _ = p.tcp(&established);
    let again = p.udp(&listening(&p, b"12345"));
    assert!(again.is_empty(), "the number was already served");
    assert_eq!(p.seen.opened, 1, "one connection, not two");
}

#[test]
fn an_unanswered_syn_is_sent_again_when_the_listener_is_announced_again() {
    let mut p = peer();
    let first = p.udp(&listening(&p, b"12345"));
    assert_eq!(first.len(), 1);
    // No answer to the SYN, so the repeat is the guest's own retry prompt.
    let again = p.udp(&listening(&p, b"12345"));
    assert_eq!(again.len(), 1, "the SYN goes again");
    assert_eq!(p.seen.opened, 1, "still one connection");
    let (from_a, _, seq_a, _, flags_a, _) = tcp_parts(&first[0]);
    let (from_b, _, seq_b, _, flags_b, _) = tcp_parts(&again[0]);
    assert_eq!((from_a, seq_a, flags_a), (from_b, seq_b, flags_b), "the same SYN");
}

#[test]
fn two_numbers_are_two_connections_on_ports_of_their_own() {
    let mut p = peer();
    let one = p.udp(&listening(&p, b"111"));
    let two = p.udp(&listening(&p, b"222"));
    assert_eq!((one.len(), two.len()), (1, 1));
    let (from_one, to_one, ..) = tcp_parts(&one[0]);
    let (from_two, to_two, ..) = tcp_parts(&two[0]);
    assert_eq!(
        (to_one, to_two),
        (NET_GUEST_TCP_PORT, NET_GUEST_TCP_PORT),
        "both reach the one listener"
    );
    assert_ne!(from_one, from_two, "so only this end's port tells them apart");
    assert_eq!(p.seen.opened, 2);
}

#[test]
fn the_handshake_is_followed_by_the_request_the_server_waits_for() {
    let mut p = peer();
    let syn = p.udp(&listening(&p, b"12345"));
    let out = p.tcp(&syn_ack(&syn[0], 0x9000));
    assert_eq!(out.len(), 2, "the acknowledgement, then the request");
    let (.., flags, empty) = tcp_parts(&out[0]);
    assert_eq!(flags, TCP_ACK);
    assert!(empty.is_empty());
    let (.., payload) = tcp_parts(&out[1]);
    assert_eq!(payload, b"kintane-tcp-inbound 12345\n");
}

#[test]
fn the_reply_earns_the_verdict_that_names_its_tag_and_then_the_close() {
    let mut p = peer();
    let syn = p.udp(&listening(&p, b"12345"));
    let (local, _, ..) = tcp_parts(&syn[0]);
    let handshake = p.tcp(&syn_ack(&syn[0], 0x9000));
    let (.., request) = tcp_parts(&handshake[1]);
    let reply = b"kintane-tcp-inbound-reply 12345\n";
    let out =
        p.tcp(&segment_from(NET_GUEST_TCP_PORT, local, 0x9001, 0, TCP_ACK | TCP_PSH, reply));
    let lines: Vec<Vec<u8>> = out.iter().map(|f| tcp_parts(f).5).collect();
    assert!(
        lines
            .iter()
            .any(|l| l == b"kintane-tcp-inbound-verified 12345\n"),
        "the verdict names the tag: {lines:?}"
    );
    assert!(
        out.iter().any(|f| tcp_parts(f).4 & TCP_FIN != 0),
        "and the close follows it, which is the end of stream the server reads"
    );
    assert_eq!(p.seen.verdicts, 1);
    assert_eq!(request, b"kintane-tcp-inbound 12345\n");
}

#[test]
fn a_reply_that_names_another_tag_is_judged_wrong() {
    let mut p = peer();
    let syn = p.udp(&listening(&p, b"12345"));
    let (local, _, ..) = tcp_parts(&syn[0]);
    let _ = p.tcp(&syn_ack(&syn[0], 0x9000));
    let out = p.tcp(&segment_from(
        NET_GUEST_TCP_PORT,
        local,
        0x9001,
        0,
        TCP_ACK | TCP_PSH,
        b"kintane-tcp-inbound-reply 99999\n",
    ));
    let lines: Vec<Vec<u8>> = out.iter().map(|f| tcp_parts(f).5).collect();
    assert!(
        lines
            .iter()
            .any(|l| l.starts_with(b"kintane-tcp-inbound-wrong ")),
        "a reply for another listener is refused, not accepted: {lines:?}"
    );
}

#[test]
fn the_announcements_name_every_port_the_guest_cannot_guess() {
    let mut p = peer();
    let frames = p.announcements();
    // Four whole datagrams and the fragmented one as two.
    assert_eq!(frames.len(), 6);
    let whole: Vec<Vec<u8>> = frames[..4].iter().map(|f| udp_parts(f).2).collect();
    assert_eq!(whole[0], NET_PROBE);
    assert_eq!(whole[1], b"kintane-tcp-port 40002");
    assert_eq!(whole[2], b"kintane-udp-port 40003");
    assert_eq!(whole[3], b"kintane-udp-quiet 40004");
    for frame in &frames[..4] {
        let (from, to, _) = udp_parts(frame);
        assert_eq!((from, to), (ports().udp, NET_GUEST_PORT));
    }
}

#[test]
fn the_fragmented_announcement_is_two_fragments_of_one_datagram() {
    let mut p = peer();
    let frames = p.announcements();
    let (first, second) = (&frames[4], &frames[5]);
    let flags = |f: &[u8]| u16::from_be_bytes([f[20], f[21]]);
    assert_eq!(flags(first) & 0x2000, 0x2000, "more to come");
    assert_eq!(flags(first) & 0x1fff, 0, "at the start");
    assert_eq!(flags(second) & 0x2000, 0, "the last one");
    assert_ne!(flags(second) & 0x1fff, 0, "further along");
    assert_eq!(first[18..20], second[18..20], "one datagram's parts carry one identifier");
    // Put back together, the payload is the datagram the guest checks byte for byte.
    let payload = |f: &[u8]| {
        let ihl = usize::from(f[14] & 0x0f) * 4;
        let total = usize::from(u16::from_be_bytes([f[16], f[17]]));
        f[14 + ihl..14 + total].to_vec()
    };
    let mut whole = payload(first);
    whole.extend(payload(second));
    let datagram = &whole[8..]; // past the UDP header the first fragment carries
    let rest = datagram
        .strip_prefix(&NET_UDP_FRAGMENTED[..])
        .expect("the marker");
    let pattern = &rest[2..]; // the number and its space
    assert_eq!(pattern.len(), NET_FRAGMENT_PATTERN);
    assert!(
        pattern
            .iter()
            .enumerate()
            .all(|(i, b)| *b == (i as u8) ^ 0x5a)
    );
}

#[test]
fn a_datagram_carries_a_checksum_a_receiver_can_check() {
    let mut p = peer();
    let frame = p
        .udp_frame(p.ports.udp, NET_GUEST_PORT, &NET_PROBE)
        .expect("built");
    assert_eq!(ipv4_checksum(&frame[14..34]), 0, "the header's own");
    let mut all = Vec::new();
    all.extend_from_slice(&frame[26..30]);
    all.extend_from_slice(&frame[30..34]);
    all.push(0);
    all.push(PROTO_UDP);
    all.extend_from_slice(&((frame.len() - 34) as u16).to_be_bytes());
    all.extend_from_slice(&frame[34..]);
    assert_eq!(ipv4_checksum(&all), 0, "and the datagram's");
}

#[test]
fn nothing_is_addressed_before_the_guest_has_been_heard_from() {
    let mut p = peer();
    p.guest_mac = None;
    assert!(p.announcements().is_empty());
    assert!(p.udp_frame(1, 2, b"x").is_none());
}
