//! What the host says to the guest, and the guest's streams.

use kbuild::netpeer::{before, Peer, GATEWAY, GUEST, PEER_MAC, TCP_ACK, TCP_FIN, TCP_PSH, TCP_RST, TCP_SYN};
use kbuild::qemu::services::{
    announcements, hear, inbound_request, inbound_verdict, reply_goes_on, request_state, service_reply, tcp_reply, Heard,
    Reading,
};
use kbuild::qemu::wire::{fragment_datagram, ipv4_checksum, ipv4_header, tcp_checksum};
use kbuild::qemu::NetPorts;

fn ports() -> NetPorts {
    NetPorts {
        udp: 40001,
        tcp: 40002,
        relay_out: 0,
        relay_in: 0,
        down_out: 0,
        down_in: 0,
        inbound: 0,
        udp_service: 40003,
        quiet: 40004,
        peer_local: 0,
        peer_remote: 0,
    }
}

#[test]
fn the_probe_comes_with_every_port() {
    let all = announcements(&ports());
    assert_eq!(all.len(), 5);
    assert_eq!(all[0], b"kintane-udp-probe");
    assert_eq!(all[1], b"kintane-tcp-port 40002");
    assert_eq!(all[2], b"kintane-udp-port 40003");
    assert_eq!(all[3], b"kintane-udp-quiet 40004");
    assert!(all[4].starts_with(b"kintane-udp-fragmented 1 \x5a\x5b\x58"));
    assert_eq!(all[4].len(), 23 + 2 + 64);
}

#[test]
fn an_echo_is_acknowledged_and_a_listener_connected_to_once() {
    let mut known: Vec<Vec<u8>> = Vec::new();
    match hear(b"kintane-udp-echo 9", &mut known) {
        Heard::Answer(a) => assert_eq!(a, b"kintane-udp-ack 9"),
        _ => panic!("an acknowledgement"),
    }
    match hear(b"kintane-tcp-listening 12", &mut known) {
        Heard::Connect(t) => assert_eq!(t, b"12"),
        _ => panic!("a connection"),
    }
    assert!(matches!(hear(b"kintane-tcp-listening 12", &mut known), Heard::Nothing));
    assert!(matches!(hear(b"noise", &mut known), Heard::Nothing));
    assert_eq!(known, [b"12".to_vec()]);
}

#[test]
fn only_the_right_reply_is_verified() {
    assert_eq!(inbound_request(b"5"), b"kintane-tcp-inbound 5\n");
    assert_eq!(inbound_verdict(b"kintane-tcp-inbound-reply 5\n", b"5"), b"kintane-tcp-inbound-verified 5\n");
    assert_eq!(inbound_verdict(b"kintane-tcp-inbound-reply 6\n", b"5"), b"kintane-tcp-inbound-wrong 5\n");
    assert!(reply_goes_on(b"kintane") && !reply_goes_on(b"x\n") && !reply_goes_on(&[b'x'; 257]));
}

#[test]
fn a_service_answers_requests_and_nothing_else() {
    assert_eq!(service_reply(b"kintane-udp-request 4"), Some(b"kintane-udp-reply 4".to_vec()));
    assert_eq!(service_reply(b"noise"), None);
    let r = tcp_reply(b"kintane-tcp-request peer-closes 7\n").unwrap();
    assert_eq!([r.first.clone(), r.second.clone()].concat(), b"kintane-tcp-reply peer-closes 7\n");
    assert_eq!(r.first.len(), (r.first.len() + r.second.len()) / 2);
    assert!(r.peer_closes);
    assert!(!tcp_reply(b"kintane-tcp-request guest-closes 7\n").unwrap().peer_closes);
    assert!(tcp_reply(b"noise\n").is_none());
    assert_eq!(request_state(b"a\n"), Reading::Whole);
    assert_eq!(request_state(b"a"), Reading::More);
    assert_eq!(request_state(&[b'a'; 4097]), Reading::TooLong);
}

#[test]
fn a_header_with_its_own_checksum_sums_to_zero() {
    let mut h = [0x45u8, 0, 0, 60, 0x1c, 0x46, 0x40, 0, 0x40, 6, 0, 0, 172, 16, 10, 99, 172, 16, 10, 12];
    let sum = ipv4_checksum(&h);
    assert_eq!(sum, 0xb1e6);
    h[10..12].copy_from_slice(&sum.to_be_bytes());
    assert_eq!(ipv4_checksum(&h), 0);
    assert_eq!(ipv4_checksum(&[]), 0xffff);
    assert_eq!(ipv4_checksum(&[1]), 0xfeff, "an odd byte is a high one");
    assert!(ipv4_header(&h).is_none(), "a header without a frame round it");
    assert!(fragment_datagram(&h).is_none());
}

#[test]
fn sequence_numbers_wrap() {
    assert!(before(1, 2) && !before(2, 1) && !before(2, 2));
    assert!(before(0xffff_fff0, 5) && !before(5, 0xffff_fff0));
}

const GUEST_MAC: [u8; 6] = [2, 0, 0, 0, 0, 1];

fn segment(from: u16, seq: u32, ack: u32, flags: u8, payload: &[u8]) -> Vec<u8> {
    let total = 40 + payload.len();
    let mut f = Vec::new();
    f.extend_from_slice(&PEER_MAC);
    f.extend_from_slice(&GUEST_MAC);
    f.extend_from_slice(&[8, 0, 0x45, 0]);
    f.extend_from_slice(&(total as u16).to_be_bytes());
    f.extend_from_slice(&[0, 1, 0, 0, 64, 6, 0, 0]);
    f.extend_from_slice(&GUEST);
    f.extend_from_slice(&GATEWAY);
    f.extend_from_slice(&from.to_be_bytes());
    f.extend_from_slice(&40002u16.to_be_bytes());
    f.extend_from_slice(&seq.to_be_bytes());
    f.extend_from_slice(&ack.to_be_bytes());
    f.extend_from_slice(&[5 << 4, flags, 0xff, 0xff, 0, 0, 0, 0]);
    f.extend_from_slice(payload);
    f
}

fn flags_and_data(f: &[u8]) -> (u8, Vec<u8>) {
    let header = 34 + usize::from(f[46] >> 4) * 4;
    (f[47], f[header..].to_vec())
}

#[test]
fn a_stream_arrives_in_order_however_its_segments_do() {
    let mut p = Peer::new(ports());
    let isn = 0xffff_fff8u32;
    let line = b"kintane-tcp-request guest-closes 1\n";
    let at = |n: u32| isn.wrapping_add(1 + n);
    assert_eq!(p.answer(&segment(50000, isn, 0, TCP_SYN, &[])).len(), 1);
    // The first in order is lost, the rest come back to front and twice.
    assert!(p.answer(&segment(50000, at(0), 0, TCP_ACK | TCP_PSH, &line[..10])).is_empty());
    p.answer(&segment(50000, at(20), 0, TCP_ACK | TCP_PSH, &line[20..]));
    p.answer(&segment(50000, at(10), 0, TCP_ACK | TCP_PSH, &line[10..20]));
    p.answer(&segment(50000, at(10), 0, TCP_ACK | TCP_PSH, &line[10..20]));
    assert_eq!(p.conns[0].request, b"", "nothing is in order yet");
    let out = p.answer(&segment(50000, at(0), 0, TCP_ACK | TCP_PSH, &line[..10]));
    assert_eq!(p.conns[0].request, line, "and then all of it is");
    assert_eq!(p.seen.duplicate_acks, 3);
    assert_eq!(p.seen.guest_retransmits, 3);
    // The acknowledgement, then the back half of the reply; the front half waits for the guest.
    assert_eq!(out.len(), 2);
    let back = flags_and_data(&out[1]).1;
    let more = p.answer(&segment(50000, at(line.len() as u32), 0, TCP_ACK, &[]));
    let front = flags_and_data(&more[0]).1;
    assert_eq!([front, back].concat(), b"kintane-tcp-reply guest-closes 1\n");
    for f in out.iter().chain(&more) {
        assert_eq!(ipv4_checksum(&f[14..34]), 0);
        assert_eq!(tcp_checksum(f, 20), u16::from_be_bytes([f[50], f[51]]));
    }
}

#[test]
fn a_connection_is_forgotten_once_both_ends_have_finished() {
    let mut p = Peer::new(ports());
    p.answer(&segment(50001, 100, 0, TCP_SYN, &[]));
    assert_eq!(p.answer(&segment(50001, 100, 0, TCP_SYN, &[])).len(), 1, "a repeated SYN is answered again");
    assert_eq!(p.conns.len(), 1);
    let out = p.answer(&segment(50001, 101, 0, TCP_ACK | TCP_FIN, &[]));
    assert_eq!(flags_and_data(&out[0]).0, TCP_ACK | TCP_FIN, "its FIN is answered with this end's");
    let snd = p.conns[0].snd_nxt;
    assert!(p.answer(&segment(50001, 102, snd, TCP_ACK, &[])).is_empty());
    assert!(p.conns.is_empty());
    p.answer(&segment(50002, 100, 0, TCP_SYN, &[]));
    p.answer(&segment(50002, 101, 0, TCP_RST, &[]));
    assert!(p.conns.is_empty(), "a reset ends it at once");
}

#[test]
fn announcements_wait_for_the_guest() {
    let mut p = Peer::new(ports());
    let s = &p.seen;
    let counters = [
        s.frames, s.arp_requests, s.arp_answered, s.echoes_answered, s.acks_sent, s.service_replies, s.announcements,
        s.connections, s.dropped_first, s.duplicate_acks, s.replies_reversed, s.opened, s.verdicts, s.selective_acks,
        s.blocks_sent, s.guest_blocks, s.guest_retransmits, s.guest_retransmit_bytes, s.refusals,
    ];
    assert_eq!(counters, [0; 19], "nothing has crossed yet");
    assert!(!p.is_due(None));
    p.answer(&segment(50001, 100, 0, TCP_SYN, &[]));
    assert!(p.is_due(None) && p.is_due(Some(250)) && !p.is_due(Some(249)));
    assert!(p.seen.report().starts_with("  net peer: 0 frames in, 0 ARP requests, "));
    assert!(p.seen.report().ends_with("0 segments the guest sent again (0 bytes), 0 datagrams refused"));
}
