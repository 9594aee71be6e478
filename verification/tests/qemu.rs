//! The frames of the network check, and the watch on a guest.

use std::collections::{HashMap, HashSet};

use kbuild::qemu::services::listening_tag;
use kbuild::qemu::watch::MarkerCounter;
use kbuild::qemu::wire::{
    disturb, first_data_segment, ipv4_checksum, tcp_checksum, Disturbance, NET_UDP_FRAGMENTED,
};


/// An Ethernet frame holding an IPv4 TCP segment with no options.
fn segment(src_port: u16, dst_port: u16, seq: u32, flags: u8, payload: usize) -> Vec<u8> {
    let mut f = vec![0u8; 14 + 20 + 20 + payload];
    f[12..14].copy_from_slice(&0x0800u16.to_be_bytes());
    f[14] = 0x45;
    f[16..18].copy_from_slice(&((40 + payload) as u16).to_be_bytes());
    f[23] = 6;
    f[34..36].copy_from_slice(&src_port.to_be_bytes());
    f[36..38].copy_from_slice(&dst_port.to_be_bytes());
    f[38..42].copy_from_slice(&seq.to_be_bytes());
    f[46] = 0x50;
    f[47] = flags;
    f
}

#[test]
fn the_relay_drops_each_connections_first_data_segment_once() {
    let mut seen = HashMap::new();
    let port = 4000;
    assert!(!first_data_segment(&segment(50000, port, 99, 0x02, 0), port, &mut seen), "a SYN passes");
    assert!(!first_data_segment(&segment(50000, port, 100, 0x10, 0), port, &mut seen), "an ACK passes");
    assert!(first_data_segment(&segment(50000, port, 100, 0x18, 5), port, &mut seen), "the first data");
    assert!(!first_data_segment(&segment(50000, port, 100, 0x18, 5), port, &mut seen), "its resend");
    assert!(!first_data_segment(&segment(50000, port, 105, 0x18, 5), port, &mut seen), "later data");
    assert!(!first_data_segment(&segment(50001, 80, 100, 0x18, 5), port, &mut seen), "another service");
    assert!(!first_data_segment(&segment(50000, port, 7, 0x02, 0), port, &mut seen), "a new connection");
    assert!(first_data_segment(&segment(50000, port, 8, 0x18, 5), port, &mut seen), "is dropped from");
    assert!(!first_data_segment(&[0u8; 20], port, &mut seen), "a runt passes, unread");
}

#[test]
fn a_marker_split_across_chunks_counts_once() {
    let mut c = MarkerCounter::new(b"beat");
    assert_eq!(c.feed(b"xxbe"), 0);
    assert_eq!(c.feed(b"at yy be"), 1);
    assert_eq!(c.feed(b"a"), 0);
    assert_eq!(c.feed(b"t"), 1);
    assert_eq!(c.count, 2);
}

#[test]
fn markers_inside_one_chunk_and_at_its_end_count_once_each() {
    let mut c = MarkerCounter::new(b"beat");
    assert_eq!(c.feed(b"beat beatbeat"), 3);
    // The tail kept from the chunk above must not recount its last marker.
    assert_eq!(c.feed(b""), 0);
    assert_eq!(c.feed(b"x"), 0);
    assert_eq!(c.count, 3);
}

#[test]
fn an_empty_marker_never_matches() {
    let mut c = MarkerCounter::new(b"");
    assert_eq!(c.feed(b"anything"), 0);
}

/// An Ethernet frame holding an IPv4 UDP datagram carrying `payload`.
fn datagram(payload: &[u8]) -> Vec<u8> {
    let total = 20 + 8 + payload.len();
    let mut f = vec![0u8; 14 + total];
    f[12..14].copy_from_slice(&0x0800u16.to_be_bytes());
    f[14] = 0x45;
    f[16..18].copy_from_slice(&(total as u16).to_be_bytes());
    f[23] = 17;
    f[34..36].copy_from_slice(&1234u16.to_be_bytes());
    f[36..38].copy_from_slice(&5555u16.to_be_bytes());
    f[38..40].copy_from_slice(&((8 + payload.len()) as u16).to_be_bytes());
    f[42..].copy_from_slice(payload);
    f
}

fn quiet(tcp_port: u16) -> Disturbance {
    Disturbance {
        tcp_port,
        split: HashSet::new(),
    }
}

/// An Ethernet frame holding an IPv4 TCP segment carrying `payload` bytes of data, with
/// addresses and a checksum, as the service's replies have.
fn reply_to(src_port: u16, dst_port: u16, seq: u32, payload: &[u8]) -> Vec<u8> {
    let mut f = reply(src_port, seq, payload);
    f[36..38].copy_from_slice(&dst_port.to_be_bytes());
    let sum = tcp_checksum(&f, 20);
    f[50..52].copy_from_slice(&sum.to_be_bytes());
    f
}

fn reply(src_port: u16, seq: u32, payload: &[u8]) -> Vec<u8> {
    let total = 20 + 20 + payload.len();
    let mut f = vec![0u8; 14 + total];
    f[12..14].copy_from_slice(&0x0800u16.to_be_bytes());
    f[14] = 0x45;
    f[16..18].copy_from_slice(&(total as u16).to_be_bytes());
    f[22] = 64;
    f[23] = 6;
    f[26..30].copy_from_slice(&[10, 0, 2, 2]);
    f[30..34].copy_from_slice(&[10, 0, 2, 15]);
    let sum = ipv4_checksum(&f[14..34]);
    f[24..26].copy_from_slice(&sum.to_be_bytes());
    f[34..36].copy_from_slice(&src_port.to_be_bytes());
    f[36..38].copy_from_slice(&50000u16.to_be_bytes());
    f[38..42].copy_from_slice(&seq.to_be_bytes());
    f[46] = 0x50;
    f[47] = 0x18;
    f[54..].copy_from_slice(payload);
    let sum = tcp_checksum(&f, 20);
    f[50..52].copy_from_slice(&sum.to_be_bytes());
    f
}

#[test]
fn a_marked_datagram_becomes_two_fragments_whose_payloads_join_up() {
    let payload = [&NET_UDP_FRAGMENTED[..], &[7u8; 64][..]].concat();
    let frame = datagram(&payload);
    let out = disturb(&frame, &mut quiet(4000));
    assert_eq!(out.len(), 2, "one datagram, two fragments");
    let mut rebuilt = Vec::new();
    for (i, f) in out.iter().enumerate() {
        let total = usize::from(u16::from_be_bytes([f[16], f[17]]));
        let flags = u16::from_be_bytes([f[20], f[21]]);
        assert_eq!(usize::from(flags & 0x1fff) * 8, rebuilt.len(), "where it belongs");
        assert_eq!(flags & 0x2000 != 0, i == 0, "only the last says none follow");
        // A header carrying its own checksum sums to zero, which is what the guest checks.
        assert_eq!(ipv4_checksum(&f[14..34]), 0);
        assert_eq!(f.len(), 14 + total, "the frame is the packet it says it is");
        rebuilt.extend_from_slice(&f[34..14 + total]);
    }
    assert_eq!(rebuilt, frame[34..], "the fragments carry the whole datagram");
}

#[test]
fn the_services_first_data_segment_is_split_and_its_halves_sent_backwards() {
    let port = 4000;
    let mut state = quiet(port);
    let whole = reply(port, 100, b"abcdefgh");
    let out = disturb(&whole, &mut state);
    assert_eq!(out.len(), 3, "the half behind, then the half in front, twice");
    let piece = |f: &Vec<u8>| {
        let total = usize::from(u16::from_be_bytes([f[16], f[17]]));
        let seq = u32::from_be_bytes([f[38], f[39], f[40], f[41]]);
        // The IPv4 header carries its own checksum, so summed as it stands it is zero.
        assert_eq!(ipv4_checksum(&f[14..34]), 0, "the IPv4 header");
        // `tcp_checksum` sums with the field taken as zero, so it yields the value the
        // segment must carry rather than zero.
        let carried = u16::from_be_bytes([f[50], f[51]]);
        assert_eq!(tcp_checksum(f, 20), carried, "the segment");
        (seq, f[54..14 + total].to_vec())
    };
    assert_eq!(piece(&out[0]), (104, b"efgh".to_vec()), "the second half first");
    assert_eq!(piece(&out[1]), (100, b"abcd".to_vec()), "then the first");
    assert_eq!(out[2], out[1], "and the first again, duplicated");
    // One segment per connection: the rest of this one passes straight through.
    let next = reply(port, 108, b"ijkl");
    assert_eq!(disturb(&next, &mut state), vec![next.clone()]);
    // A different guest port is a different connection, and gets its own disturbance —
    // which is what every boot of a machine that reboots under one kbuild needs.
    let other = reply_to(port, 50001, 300, b"mnop");
    assert_eq!(disturb(&other, &mut state).len(), 3, "a second connection");
    let after = reply_to(port, 50001, 304, b"qrst");
    assert_eq!(disturb(&after, &mut state), vec![after.clone()]);
}

#[test]
fn frames_that_are_not_the_services_data_pass_through_untouched() {
    let mut state = quiet(4000);
    // An acknowledgement carries no data.
    let ack = segment(4000, 50000, 100, 0x10, 0);
    assert_eq!(disturb(&ack, &mut state), vec![ack.clone()]);
    // Another service's data.
    let other = segment(80, 50000, 100, 0x18, 5);
    assert_eq!(disturb(&other, &mut state), vec![other.clone()]);
    // A datagram without the marker.
    let plain = datagram(b"kintane-udp-probe");
    assert_eq!(disturb(&plain, &mut state), vec![plain.clone()]);
    // A runt, read and passed on rather than read past its end.
    assert_eq!(disturb(&[0u8; 20], &mut state), vec![vec![0u8; 20]]);
    assert!(state.split.is_empty(), "no connection was disturbed");
}

#[test]
fn a_listening_datagram_carries_a_number_and_nothing_else() {
    assert_eq!(listening_tag(b"kintane-tcp-listening 1"), Some(b"1".to_vec()));
    assert_eq!(listening_tag(b"kintane-tcp-listening 42"), Some(b"42".to_vec()));
    assert_eq!(listening_tag(b"kintane-tcp-listening "), None);
    assert_eq!(listening_tag(b"kintane-tcp-listening 1; rm"), None);
    assert_eq!(listening_tag(b"kintane-udp-echo 1"), None);
}
