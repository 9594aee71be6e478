//! What a connection says of what it has heard and of what it misses, said of the bytes and the numbers
//! themselves.

use vstd::prelude::*;

use crate::bytes;
use crate::netpeer;
use crate::netpeer::{Link, Net};

verus! {

/// A segment that opens a connection offers segments of 1460 bytes and takes selective acknowledgements.
pub proof fn openings_offer_what_is_taken(flags: u8, blocks: Seq<(u32, u32)>)
    ensures
        flags == 0x02 || flags == 0x12 ==> netpeer::options(flags, blocks) == seq![2u8, 4u8, 5u8, 180u8, 1u8, 1u8, 4u8, 2u8],
        flags == 0x10 || flags == 0x11 || flags == 0x18 ==> (blocks.len() == 0 ==> netpeer::options(flags, blocks).len()
            == 0),
{
}

proof fn pairs_of_numbers(blocks: Seq<(u32, u32)>, n: nat, i: int)
    requires
        0 <= i < n <= blocks.len(),
    ensures
        netpeer::block_bytes(blocks, n).len() == 8 * n,
        bytes::be32(netpeer::block_bytes(blocks, n), 8 * i) == blocks[i].0,
        bytes::be32(netpeer::block_bytes(blocks, n), 8 * i + 4) == blocks[i].1,
    decreases n,
{
    let all = netpeer::block_bytes(blocks, n);
    let before = netpeer::block_bytes(blocks, (n - 1) as nat);
    let (x, y) = (bytes::be32_bytes(blocks[n - 1].0 as int), bytes::be32_bytes(blocks[n - 1].1 as int));
    if n > 1 {
        pairs_of_numbers(
            blocks,
            (n - 1) as nat,
            if i < n - 1 {
                i
            } else {
                0
            },
        );
    } else {
        assert(before.len() == 0);
    }
    bytes::be32_of_bytes(blocks[n - 1].0 as int);
    bytes::be32_of_bytes(blocks[n - 1].1 as int);
    let m = before.len() as int;
    assert(all == before + x + y);
    if i == n - 1 {
        assert(all[m] == x[0] && all[m + 1] == x[1] && all[m + 2] == x[2] && all[m + 3] == x[3]);
        assert(all[m + 4] == y[0] && all[m + 5] == y[1] && all[m + 6] == y[2] && all[m + 7] == y[3]);
    } else {
        let a = 8 * i;
        assert(all[a] == before[a] && all[a + 1] == before[a + 1] && all[a + 2] == before[a + 2] && all[a + 3]
            == before[a + 3]);
        assert(all[a + 4] == before[a + 4] && all[a + 5] == before[a + 5] && all[a + 6] == before[a + 6] && all[a + 7]
            == before[a + 7]);
    }
}

/// Blocks are told where they begin and where they end, the first three of them and in their order, behind
/// two bytes of padding, a kind and a length.
pub proof fn blocks_are_told_in_order(blocks: Seq<(u32, u32)>, i: int)
    requires
        0 <= i < blocks.len(),
        i < 3,
    ensures
        ({
            let o = netpeer::options(0x10, blocks);
            let n = if blocks.len() < 3 {
                blocks.len() as int
            } else {
                3
            };
            &&& o.len() == 4 + 8 * n
            &&& o[0] == 1 && o[1] == 1 && o[2] == 5
            &&& o[3] == 2 + 8 * n
            &&& bytes::be32(o, 4 + 8 * i) == blocks[i].0
            &&& bytes::be32(o, 8 + 8 * i) == blocks[i].1
        }),
{
    let n: nat = if blocks.len() < 3 {
        blocks.len()
    } else {
        3
    };
    pairs_of_numbers(blocks, n, i);
    let o = netpeer::options(0x10, blocks);
    let all = netpeer::block_bytes(blocks, n);
    let head = seq![1u8, 1u8, 5u8, (2 + 8 * n) as u8];
    assert(o == head + all);
    let a = 8 * i;
    assert(o[4 + a] == all[a] && o[5 + a] == all[a + 1] && o[6 + a] == all[a + 2] && o[7 + a] == all[a + 3]);
    assert(o[8 + a] == all[a + 4] && o[9 + a] == all[a + 5] && o[10 + a] == all[a + 6] && o[11 + a] == all[a + 7]);
}

/// Options are read one behind the other: padding is one byte, an end ends them, one that does not fit ends
/// them too, and any other is as long as it says. Leave for selective acknowledgements and the number of
/// blocks are taken from the options that hold them.
pub proof fn options_are_read_in_turn(o: Seq<u8>, at: int, permitted: bool, blocks: int)
    requires
        0 <= at < o.len(),
    ensures
        ({
            let all = netpeer::options_from(o, at, permitted, blocks);
            let kind = o[at];
            let fits = at + 1 < o.len() && o[at + 1] >= 2 && at + o[at + 1] <= o.len();
            let n = o[at + 1] as int;
            let long = kind != 0 && kind != 1;
            &&& kind == 0 ==> all == (permitted, blocks)
            &&& kind == 1 ==> all == netpeer::options_from(o, at + 1, permitted, blocks)
            &&& long && !fits ==> all == (permitted, blocks)
            &&& long && fits && kind == 4 && n == 2 ==> all == netpeer::options_from(o, at + 2, true, blocks)
            &&& long && fits && kind == 5 && n == 10 ==> all == netpeer::options_from(o, at + 10, permitted, 1)
            &&& long && fits && kind == 5 && n == 18 ==> all == netpeer::options_from(o, at + 18, permitted, 2)
            &&& long && fits && kind == 5 && n == 26 ==> all == netpeer::options_from(o, at + 26, permitted, 3)
            &&& long && fits && kind == 5 && n == 34 ==> all == netpeer::options_from(o, at + 34, permitted, 4)
            &&& long && fits && kind != 4 && kind != 5 ==> all == netpeer::options_from(o, at + n, permitted, blocks)
        }),
{
}

/// Options that are written read back: an opening gives leave, and blocks are as many as were told.
pub proof fn options_that_are_written_read_back(blocks: Seq<(u32, u32)>)
    ensures
        netpeer::options_from(netpeer::options(0x02, blocks), 0, false, 0) == (true, 0int),
        ({
            let n = if blocks.len() < 3 {
                blocks.len() as int
            } else {
                3
            };
            netpeer::options_from(netpeer::options(0x10, blocks), 0, false, 0) == (false, n)
        }),
{
    let o = netpeer::options(0x02, blocks);
    openings_offer_what_is_taken(0x02, blocks);
    assert(netpeer::options_from(o, 8, true, 0) == (true, 0int));
    options_are_read_in_turn(o, 6, false, 0);
    options_are_read_in_turn(o, 5, false, 0);
    options_are_read_in_turn(o, 4, false, 0);
    options_are_read_in_turn(o, 0, false, 0);
    let p = netpeer::options(0x10, blocks);
    openings_offer_what_is_taken(0x10, blocks);
    if blocks.len() > 0 {
        blocks_are_told_in_order(blocks, 0);
        let n = p[3] as int;
        assert(netpeer::options_from(p, 2 + n, false, (n - 2) / 8) == (false, (n - 2) / 8));
        options_are_read_in_turn(p, 2, false, 0);
        options_are_read_in_turn(p, 1, false, 0);
        options_are_read_in_turn(p, 0, false, 0);
    }
}

/// Runs of bytes that touch are told as one: what is told begins where the first run does, ends where the
/// last does, and no run begins where the one before it ends.
pub proof fn runs_that_touch_are_one(runs: Seq<(u32, u32)>, k: nat)
    requires
        0 < k <= runs.len(),
    ensures
        ({
            let all = netpeer::coalesced(runs, k);
            &&& 0 < all.len() <= k
            &&& all[0].0 == runs[0].0
            &&& all.last().1 == runs[k - 1].1
            &&& forall|i: int, j: int|
                0 <= i && j == i + 1 && j < all.len() ==> (#[trigger] all[i]).1 != (#[trigger] all[j]).0
        }),
    decreases k,
{
    if k > 1 {
        runs_that_touch_are_one(runs, (k - 1) as nat);
        let before = netpeer::coalesced(runs, (k - 1) as nat);
        let all = netpeer::coalesced(runs, k);
        let r = runs[k - 1];
        if before.last().1 == r.0 {
            assert(all == before.drop_last().push((before.last().0, r.1)));
            assert forall|i: int, j: int| 0 <= i && j == i + 1 && j < all.len() implies (#[trigger] all[i]).1 != (
            #[trigger] all[j]).0 by {
                assert(all[i] == before[i]);
                assert(all[j].0 == before[j].0);
            }
        } else {
            assert(all == before.push(r));
            assert forall|i: int, j: int| 0 <= i && j == i + 1 && j < all.len() implies (#[trigger] all[i]).1 != (
            #[trigger] all[j]).0 by {
                assert(all[i] == before[i]);
                if j < before.len() {
                    assert(all[j] == before[j]);
                }
            }
        }
    } else {
        assert(netpeer::coalesced(runs, 0).len() == 0);
    }
}

/// Blocks are named only on a connection that gave leave, and never more than three.
pub proof fn blocks_are_named_by_leave(c: Link)
    ensures
        !c.sack_ok ==> netpeer::named(c).len() == 0,
        netpeer::named(c).len() <= 3,
        c.held.len() == 0 ==> netpeer::named(c).len() == 0,
{
    if c.held.len() == 0 {
        assert(netpeer::in_order(c.held, c.rcv_nxt, 0).len() == 0);
        assert(netpeer::coalesced(netpeer::in_order(c.held, c.rcv_nxt, 0), 0).len() == 0);
    }
}

/// A segment without data that closes nothing sends what was kept back, and changes no more than that,
/// except that a connection that both ends have closed is forgotten with the last acknowledgement.
pub proof fn what_was_kept_back_is_sent(n: Net, i: int, t: netpeer::Told)
    requires
        0 <= i < n.conns.len(),
        t.payload.len() == 0,
        t.flags / 1 % 2 == 0,
        t.blocks == 0,
    ensures
        ({
            let (m, out) = netpeer::hear_on(n, i, t);
            let c = n.conns[i];
            let over = t.flags / 16 % 2 == 1 && c.fin_sent && c.fin_seen && t.ack == c.snd_nxt;
            &&& out == c.pending
            &&& !over ==> m.conns.len() == n.conns.len() && m.conns[i] == (Link { pending: seq![], ..c })
            &&& over ==> forall|k: int|
                0 <= k < m.conns.len() ==> !((#[trigger] m.conns[k]).guest_port == t.guest_port && m.conns[k].local_port
                    == t.local_port)
            &&& m.seen == n.seen
        }),
{
    let c = n.conns[i];
    let none = Seq::<Seq<u8>>::empty();
    assert(c.pending + none + none =~= c.pending);
    let after = n.conns.update(i, Link { pending: seq![], ..c });
    forgotten_are_gone(after, t.guest_port, t.local_port, after.len());
}

proof fn forgotten_are_gone(conns: Seq<Link>, guest: int, local: int, k: nat)
    requires
        k <= conns.len(),
    ensures
        forall|j: int|
            0 <= j < netpeer::others(conns, guest, local, k).len() ==> !((#[trigger] netpeer::others(
                conns,
                guest,
                local,
                k,
            )[j]).guest_port == guest && netpeer::others(conns, guest, local, k)[j].local_port == local),
    decreases k,
{
    if k > 0 {
        forgotten_are_gone(conns, guest, local, (k - 1) as nat);
    }
}

/// Data that was heard before is counted as heard again, once and with its bytes; data that is new is not.
pub proof fn what_is_heard_again_is_counted(s: netpeer::Seen, c: Link, seq: u32, len: int)
    requires
        0 <= len <= 0xffff,
        netpeer::room(s),
        c.seen_through != 0,
    ensures
        ({
            let after = netpeer::counted(s, c, seq, len);
            let behind = (c.seen_through - seq) % 0x1_0000_0000;
            &&& 0 < behind < 0x8000_0000 ==> after.guest_retransmits == s.guest_retransmits + 1
                && after.guest_retransmit_bytes == s.guest_retransmit_bytes + len
            &&& behind == 0 || behind >= 0x8000_0000 ==> after == s
            &&& after.frames == s.frames && after.duplicate_acks == s.duplicate_acks
        }),
{
}

/// Whether runs are in the order of their distance behind a hole.
pub open spec fn is_ordered(runs: Seq<(u32, u32)>, hole: u32) -> bool {
    forall|i: int, j: int|
        0 <= i <= j < runs.len() ==> ((#[trigger] runs[i]).0 - hole) % 0x1_0000_0000 <= ((#[trigger] runs[j]).0 - hole)
            % 0x1_0000_0000
}

proof fn placing_keeps_order(runs: Seq<(u32, u32)>, run: (u32, u32), hole: u32, k: nat)
    requires
        k <= runs.len(),
        is_ordered(runs, hole),
        forall|j: int| k <= j < runs.len() ==> (run.0 - hole) % 0x1_0000_0000 <= ((#[trigger] runs[j]).0 - hole) % 0x1_0000_0000,
    ensures
        is_ordered(netpeer::placed(runs, run, hole, k), hole),
        netpeer::placed(runs, run, hole, k).len() == runs.len() + 1,
        netpeer::placed(runs, run, hole, k).contains(run),
        forall|j: int| 0 <= j < runs.len() ==> netpeer::placed(runs, run, hole, k).contains(#[trigger] runs[j]),
    decreases k,
{
    let all = netpeer::placed(runs, run, hole, k);
    if k == 0 {
        assert(all == seq![run] + runs);
        assert(all[0] == run);
        assert forall|j: int| 0 <= j < runs.len() implies all.contains(#[trigger] runs[j]) by {
            assert(all[j + 1] == runs[j]);
        }
        assert forall|i: int, j: int| 0 <= i <= j < all.len() implies ((#[trigger] all[i]).0 - hole) % 0x1_0000_0000 <= ((
        #[trigger] all[j]).0 - hole) % 0x1_0000_0000 by {
            if i > 0 {
                assert(all[i] == runs[i - 1] && all[j] == runs[j - 1]);
            } else if j > 0 {
                assert(all[j] == runs[j - 1]);
            }
        }
    } else if netpeer::past(hole, runs[k - 1].0) <= netpeer::past(hole, run.0) {
        let m = k as int;
        assert(all == runs.insert(m, run));
        assert(all[m] == run);
        assert forall|j: int| 0 <= j < runs.len() implies all.contains(#[trigger] runs[j]) by {
            if j < m {
                assert(all[j] == runs[j]);
            } else {
                assert(all[j + 1] == runs[j]);
            }
        }
        assert forall|i: int, j: int| 0 <= i <= j < all.len() implies ((#[trigger] all[i]).0 - hole) % 0x1_0000_0000 <= ((
        #[trigger] all[j]).0 - hole) % 0x1_0000_0000 by {
            let x = if i < m {
                i
            } else {
                i - 1
            };
            let y = if j < m {
                j
            } else {
                j - 1
            };
            if i != m {
                assert(all[i] == runs[x]);
            }
            if j != m {
                assert(all[j] == runs[y]);
            }
            if i < m && j == m {
                assert(runs[x].0 - hole == runs[i].0 - hole);
                assert((runs[i].0 - hole) % 0x1_0000_0000 <= (runs[m - 1].0 - hole) % 0x1_0000_0000);
            }
        }
    } else {
        assert forall|j: int| k - 1 <= j < runs.len() implies (run.0 - hole) % 0x1_0000_0000 <= ((#[trigger] runs[j]).0
            - hole) % 0x1_0000_0000 by {
            assert((runs[k - 1].0 - hole) % 0x1_0000_0000 <= (runs[j].0 - hole) % 0x1_0000_0000);
        }
        placing_keeps_order(runs, run, hole, (k - 1) as nat);
    }
}

/// What is held back is told in the order in which it follows the hole, all of it: each piece from where it
/// begins to where it ends.
pub proof fn what_is_held_is_told_in_order(held: Seq<(u32, Seq<u8>)>, hole: u32, k: nat, i: int)
    requires
        0 <= i < k <= held.len(),
    ensures
        ({
            let all = netpeer::in_order(held, hole, k);
            &&& all.len() == k
            &&& is_ordered(all, hole)
            &&& all.contains((held[i].0, ((held[i].0 + held[i].1.len()) % 0x1_0000_0000) as u32))
        }),
    decreases k,
{
    let before = netpeer::in_order(held, hole, (k - 1) as nat);
    if k > 1 {
        what_is_held_is_told_in_order(
            held,
            hole,
            (k - 1) as nat,
            if i < k - 1 {
                i
            } else {
                0
            },
        );
    } else {
        assert(before.len() == 0);
    }
    let (at, bytes) = held[k - 1];
    placing_keeps_order(before, (at, netpeer::plus(at, bytes.len() as int)), hole, before.len());
    if i < k - 1 {
        let x = (held[i].0, ((held[i].0 + held[i].1.len()) % 0x1_0000_0000) as u32);
        let q = before.index_of(x);
        assert(before[q] == x);
    }
}

/// How far a guest has been heard is the furthest end of anything that it sent.
pub proof fn the_furthest_end_is_kept(c: Link, seq: u32, len: int)
    requires
        0 <= len <= 0xffff,
    ensures
        ({
            let end = ((seq + len) % 0x1_0000_0000) as u32;
            let ahead = (end - c.seen_through) % 0x1_0000_0000;
            let after = netpeer::noted(c, seq, len);
            &&& c.seen_through == 0 ==> after.seen_through == end
            &&& c.seen_through != 0 && 0 < ahead < 0x8000_0000 ==> after.seen_through == end
            &&& c.seen_through != 0 && !(0 < ahead < 0x8000_0000) ==> after == c
            &&& after.rcv_nxt == c.rcv_nxt && after.held == c.held && after.request == c.request
        }),
{
}

} // verus!
