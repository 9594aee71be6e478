//! What each opcode of a line-number program does, and what the bytes around it mean, said of the
//! bytes themselves.

use vstd::prelude::*;

use crate::dwarf;
use crate::dwarf::{File, Head, Last, Part, Regs, Span};
use crate::text;

verus! {

/// Whether the opcode `op` is next, and it is not one of the special ones.
pub open spec fn stands(d: Seq<u8>, h: Head, r: Regs, op: int) -> bool {
    0 <= r.pos < d.len() && d[r.pos] == op && op < h.opcode_base
}

/// Whether two states differ in nothing but where the machine is and the address.
pub open spec fn only_address(a: Regs, b: Regs) -> bool {
    &&& a.file == b.file
    &&& a.line == b.line
    &&& a.prev == b.prev
    &&& a.files == b.files
    &&& a.names == b.names
    &&& a.spans == b.spans
}

/// `DW_LNS_const_add_pc` advances the address exactly as special opcode 255 does, for every header and
/// every state, and does nothing else: no row comes out, and line and file stay.
pub proof fn const_add_pc_advances_as_255_does(
    d: Seq<u8>,
    r: Regs,
    d2: Seq<u8>,
    p2: int,
    h: Head,
    little: bool,
)
    requires
        stands(d, h, r, 8),
        h.opcode_base <= 255,
        0 <= p2 < d2.len(),
        d2[p2] == 255,
    ensures
        ({
            let a = dwarf::stepped(d, h, r, little);
            let b = dwarf::stepped(d2, h, Regs { pos: p2, ..r }, little);
            &&& a is Ok
            &&& b is Ok
            &&& a->Ok_0.addr == b->Ok_0.addr
            &&& a->Ok_0.pos == r.pos + 1
            &&& only_address(a->Ok_0, r)
        }),
{
}

/// A special opcode that stands `a` address steps and `b` line steps above the first one moves the
/// address by `a` instructions and the line by `b` above the least step, then gives out a row: what it
/// leaves is what a row at the new address and line leaves.
pub proof fn special_opcodes_move_both(d: Seq<u8>, h: Head, r: Regs, little: bool, a: int, b: int)
    requires
        0 <= r.pos < d.len(),
        h.line_range > 0,
        0 <= a,
        0 <= b < h.line_range,
        d[r.pos] == h.opcode_base + a * h.line_range + b,
        0 <= r.addr,
        0 <= a * h.min_inst,
        r.addr + a * h.min_inst < 0x1_0000_0000_0000_0000,
        -0x8000_0000_0000_0000 <= r.line + h.line_base + b < 0x8000_0000_0000_0000,
    ensures
        ({
            let s = dwarf::stepped(d, h, r, little);
            &&& s is Ok
            &&& s->Ok_0.addr == r.addr + a * h.min_inst
            &&& s->Ok_0.line == r.line + h.line_base + b
            &&& s->Ok_0.file == r.file
            &&& s->Ok_0.pos == r.pos + 1
            &&& s->Ok_0.prev is Some
            &&& s->Ok_0.prev->0.addr == r.addr + a * h.min_inst
            &&& s->Ok_0 == dwarf::emitted(
                Regs { pos: r.pos + 1, addr: r.addr + a * h.min_inst, line: r.line + h.line_base + b, ..r },
            )
        }),
{
    let adj = d[r.pos] - h.opcode_base;
    assert(a * h.line_range >= 0) by (nonlinear_arith)
        requires
            a >= 0,
            h.line_range > 0,
    ;
    vstd::arithmetic::div_mod::lemma_fundamental_div_mod_converse(adj, h.line_range, a, b);
}

/// A row ends the one before it: where the address has grown since, the code from the last row's
/// address up to this one's comes from the last row's file and line, and where it has not, nothing is
/// said of it. The first row of a sequence says nothing by itself.
pub proof fn a_row_ends_the_one_before(r: Regs)
    ensures
        ({
            let s = dwarf::emitted(r);
            &&& s.addr == r.addr
            &&& s.line == r.line
            &&& s.file == r.file
            &&& s.pos == r.pos
            &&& s.names == r.names
            &&& s.files == r.files
            &&& s.prev is Some
            &&& s.prev->0.addr == r.addr
            &&& r.prev is None ==> s.spans == r.spans
            &&& r.prev is Some && r.addr <= r.prev->0.addr ==> s.spans == r.spans
            &&& r.prev is Some && r.addr > r.prev->0.addr && 0 <= r.prev->0.addr && r.addr <= u64::MAX && 0
                <= r.prev->0.file <= usize::MAX && 0 <= r.prev->0.line <= u32::MAX ==> {
                &&& s.spans.len() == r.spans.len() + 1
                &&& forall|i: int| 0 <= i < r.spans.len() ==> #[trigger] s.spans[i] == r.spans[i]
                &&& s.spans.last().start == r.prev->0.addr
                &&& s.spans.last().end == r.addr
                &&& s.spans.last().file == r.prev->0.file
                &&& s.spans.last().line == r.prev->0.line
            }
        }),
{
}

/// What a row is of: its own file and line, but code without a line belongs to the row before it, where
/// that one has a line.
pub proof fn a_row_without_a_line_takes_the_last(r: Regs)
    requires
        0 <= r.line <= u32::MAX,
        0 <= r.file < r.files.len(),
    ensures
        ({
            let s = dwarf::emitted(r).prev->0;
            &&& r.line != 0 ==> s.line == r.line && s.file == r.files[r.file]
            &&& r.prev is None ==> s.line == r.line && s.file == r.files[r.file]
            &&& r.line == 0 && r.prev is Some && r.prev->0.line != 0 ==> s.line == r.prev->0.line && s.file
                == r.prev->0.file
        }),
{
}

/// `DW_LNS_copy` gives out a row and moves nothing.
pub proof fn copy_gives_out_a_row(d: Seq<u8>, h: Head, r: Regs, little: bool)
    requires
        stands(d, h, r, 1),
    ensures
        dwarf::stepped(d, h, r, little) == Ok::<Regs, Seq<char>>(
            dwarf::emitted(Regs { pos: r.pos + 1, ..r }),
        ),
{
}

/// `DW_LNS_advance_pc` adds its operand, in instructions, to the address and does nothing else.
pub proof fn advance_pc_moves_the_address(d: Seq<u8>, h: Head, r: Regs, little: bool, n: u64, q: int)
    requires
        stands(d, h, r, 2),
        dwarf::uleb(d, r.pos + 1) == Ok::<(u64, int), Seq<char>>((n, q)),
        0 <= r.addr,
        0 <= n * h.min_inst,
        r.addr + n * h.min_inst < 0x1_0000_0000_0000_0000,
    ensures
        ({
            let s = dwarf::stepped(d, h, r, little);
            &&& s is Ok
            &&& s->Ok_0.addr == r.addr + n * h.min_inst
            &&& s->Ok_0.pos == q
            &&& only_address(s->Ok_0, r)
        }),
{
}

/// `DW_LNS_advance_line` adds its operand, which may be negative, to the line and does nothing else.
pub proof fn advance_line_moves_the_line(d: Seq<u8>, h: Head, r: Regs, little: bool, n: i64, q: int)
    requires
        stands(d, h, r, 3),
        dwarf::sleb(d, r.pos + 1) == Ok::<(i64, int), Seq<char>>((n, q)),
        -0x8000_0000_0000_0000 <= r.line + n < 0x8000_0000_0000_0000,
    ensures
        dwarf::stepped(d, h, r, little) == Ok::<Regs, Seq<char>>(Regs { pos: q, line: r.line + n, ..r }),
{
}

/// `DW_LNS_set_file` changes the file and nothing else.
pub proof fn set_file_changes_the_file(d: Seq<u8>, h: Head, r: Regs, little: bool, n: u64, q: int)
    requires
        stands(d, h, r, 4),
        dwarf::uleb(d, r.pos + 1) == Ok::<(u64, int), Seq<char>>((n, q)),
    ensures
        dwarf::stepped(d, h, r, little) == Ok::<Regs, Seq<char>>(Regs { pos: q, file: n as int, ..r }),
{
}

/// `DW_LNS_fixed_advance_pc` adds its two-byte operand, in bytes, to the address: no instruction
/// length is counted in, and nothing else changes.
pub proof fn fixed_advance_pc_counts_bytes(d: Seq<u8>, h: Head, r: Regs, little: bool)
    requires
        stands(d, h, r, 9),
        r.pos + 3 <= d.len(),
        0 <= r.addr,
        r.addr + 0x1_0000 < 0x1_0000_0000_0000_0000,
    ensures
        ({
            let s = dwarf::stepped(d, h, r, little);
            let (x, y) = (d[r.pos + 1] as int, d[r.pos + 2] as int);
            &&& s is Ok
            &&& s->Ok_0.pos == r.pos + 3
            &&& only_address(s->Ok_0, r)
            &&& little ==> s->Ok_0.addr == r.addr + x + 256 * y
            &&& !little ==> s->Ok_0.addr == r.addr + 256 * x + y
        }),
{
    two_bytes_are_a_number(d, r.pos + 1);
}

/// An opcode that only a debugger needs, and one that the machine does not know, is stepped over with
/// as many operands as the header says it has; nothing but the place changes.
pub proof fn other_opcodes_are_stepped_over(d: Seq<u8>, h: Head, r: Regs, little: bool, op: int)
    requires
        stands(d, h, r, op),
        op > 9 || 5 <= op <= 7,
        op - 1 < h.lengths.len(),
    ensures
        ({
            let s = dwarf::stepped(d, h, r, little);
            &&& s is Ok ==> only_address(s->Ok_0, r) && s->Ok_0.addr == r.addr
            &&& h.lengths[op - 1] == 0 ==> s == Ok::<Regs, Seq<char>>(Regs { pos: r.pos + 1, ..r })
            &&& h.lengths[op - 1] == 1 && dwarf::uleb(d, r.pos + 1) is Ok ==> s == Ok::<Regs, Seq<char>>(
                Regs { pos: dwarf::uleb(d, r.pos + 1)->Ok_0.1, ..r },
            )
        }),
{
    if h.lengths[op - 1] == 1 && dwarf::uleb(d, r.pos + 1) is Ok {
        let q = dwarf::uleb(d, r.pos + 1)->Ok_0.1;
        assert(dwarf::skipped(d, q, 0) == Ok::<int, Seq<char>>(q));
        assert(dwarf::skipped(d, r.pos + 1, 1) == Ok::<int, Seq<char>>(q));
    }
}

/// Whether an extended opcode `op` is next, `len` bytes long from `q` on.
pub open spec fn stands_extended(d: Seq<u8>, h: Head, r: Regs, op: int, len: u64, q: int) -> bool {
    &&& stands(d, h, r, 0)
    &&& dwarf::uleb(d, r.pos + 1) == Ok::<(u64, int), Seq<char>>((len, q))
    &&& len > 0
    &&& 0 <= q < d.len()
    &&& q + len <= usize::MAX
    &&& d[q] == op
}

/// `DW_LNE_end_sequence` gives out a last row and starts over: address 0, file 1, line 1, and no row
/// before it.
pub proof fn end_sequence_starts_over(d: Seq<u8>, h: Head, r: Regs, little: bool, len: u64, q: int)
    requires
        stands_extended(d, h, r, 1, len, q),
    ensures
        ({
            let s = dwarf::stepped(d, h, r, little);
            &&& s is Ok
            &&& s->Ok_0.pos == q + len
            &&& s->Ok_0.addr == 0
            &&& s->Ok_0.file == 1
            &&& s->Ok_0.line == 1
            &&& s->Ok_0.prev is None
            &&& s->Ok_0.spans == dwarf::emitted(r).spans
            &&& s->Ok_0.files == r.files
            &&& s->Ok_0.names == r.names
        }),
{
}

/// `DW_LNE_set_address` sets the address to its operand of four or eight bytes and does nothing else.
pub proof fn set_address_sets_it(d: Seq<u8>, h: Head, r: Regs, little: bool, len: u64, q: int)
    requires
        stands_extended(d, h, r, 2, len, q),
        q + len <= d.len(),
    ensures
        ({
            let s = dwarf::stepped(d, h, r, little);
            &&& len == 9 || len == 5 ==> {
                &&& s is Ok
                &&& s->Ok_0.pos == q + len
                &&& only_address(s->Ok_0, r)
                &&& little ==> s->Ok_0.addr == dwarf::le_num(d, q + 1, (len - 1) as nat)
                &&& !little ==> s->Ok_0.addr == dwarf::be_num(d, q + 1, (len - 1) as nat)
            }
            &&& !(len == 9 || len == 5) ==> s is Err
        }),
{
}

/// `DW_LNE_define_file` gives the unit one more file, and any other extended opcode is stepped over.
pub proof fn extended_opcodes_are_as_long_as_they_say(d: Seq<u8>, h: Head, r: Regs, little: bool, op: int, len: u64, q: int)
    requires
        stands_extended(d, h, r, op, len, q),
        op > 2,
        op == 3 ==> dwarf::string(d, q + 1) is Ok,
    ensures
        ({
            let s = dwarf::stepped(d, h, r, little);
            &&& s is Ok
            &&& s->Ok_0.pos == q + len
            &&& s->Ok_0.addr == r.addr
            &&& s->Ok_0.line == r.line
            &&& s->Ok_0.file == r.file
            &&& s->Ok_0.prev == r.prev
            &&& s->Ok_0.spans == r.spans
            &&& op != 3 ==> s->Ok_0.files == r.files && s->Ok_0.names == r.names
            &&& op == 3 ==> {
                let name = dwarf::string(d, q + 1)->Ok_0.0;
                &&& s->Ok_0.files.len() == r.files.len() + 1
                &&& forall|i: int| 0 <= i < r.files.len() ==> #[trigger] s->Ok_0.files[i] == r.files[i]
                &&& 0 <= s->Ok_0.files.last() < s->Ok_0.names.len()
                &&& s->Ok_0.names[s->Ok_0.files.last()] == name
                &&& forall|i: int| 0 <= i < r.names.len() ==> #[trigger] s->Ok_0.names[i] == r.names[i]
            }
        }),
{
    if op == 3 {
        names_are_kept_once(r.names, dwarf::string(d, q + 1)->Ok_0.0);
    }
}

/// A name is listed once: it comes to stand where it stood, or behind all others, and no other moves.
pub proof fn names_are_kept_once(names: Seq<Seq<char>>, name: Seq<char>)
    ensures
        ({
            let (after, i) = dwarf::interned(names, name);
            &&& 0 <= i < after.len()
            &&& after[i] == name
            &&& names.contains(name) ==> after == names
            &&& !names.contains(name) ==> after == names.push(name)
            &&& forall|k: int| 0 <= k < names.len() ==> #[trigger] after[k] == names[k]
        }),
{
    a_name_is_found_or_not(names, name, 0);
}

proof fn a_name_is_found_or_not(names: Seq<Seq<char>>, name: Seq<char>, from: int)
    requires
        0 <= from,
    ensures
        match dwarf::name_from(names, name, from) {
            Some(i) => from <= i < names.len() && names[i] == name,
            None => forall|i: int| from <= i < names.len() ==> #[trigger] names[i] != name,
        },
    decreases names.len() - from,
{
    if from < names.len() {
        a_name_is_found_or_not(names, name, from + 1);
    }
}

/// Every file of a unit keeps its name: the file that the unit calls `i` is listed under the name that
/// the unit gives it.
pub proof fn files_keep_their_names(names: Seq<Seq<char>>, ns: Seq<Seq<char>>, k: nat, i: int)
    requires
        k <= ns.len(),
        0 <= i < k,
    ensures
        ({
            let (after, ids) = dwarf::all_interned(names, ns, k);
            &&& ids.len() == k
            &&& 0 <= ids[i] < after.len()
            &&& after[ids[i]] == ns[i]
        }),
    decreases k,
{
    names_stay(names, ns, (k - 1) as nat);
    let (before, ids) = dwarf::all_interned(names, ns, (k - 1) as nat);
    names_are_kept_once(before, ns[k - 1]);
    if i < k - 1 {
        files_keep_their_names(names, ns, (k - 1) as nat, i);
        let (after, _) = dwarf::interned(before, ns[k - 1]);
        assert(after[ids[i]] == before[ids[i]]);
    }
}

proof fn names_stay(names: Seq<Seq<char>>, ns: Seq<Seq<char>>, k: nat)
    requires
        k <= ns.len(),
    ensures
        dwarf::all_interned(names, ns, k).1.len() == k,
    decreases k,
{
    if k > 0 {
        names_stay(names, ns, (k - 1) as nat);
    }
}

/// Two bytes are a number: the low one first or the high one first.
pub proof fn two_bytes_are_a_number(d: Seq<u8>, p: int)
    requires
        0 <= p,
        p + 2 <= d.len(),
    ensures
        dwarf::uint(d, p, 2, true) == Ok::<(int, int), Seq<char>>((d[p] + 256 * d[p + 1], p + 2)),
        dwarf::uint(d, p, 2, false) == Ok::<(int, int), Seq<char>>((256 * d[p] + d[p + 1], p + 2)),
{
    reveal_with_fuel(dwarf::le_num, 3);
    reveal_with_fuel(dwarf::be_num, 3);
}

/// Four bytes are a number: the low one first or the high one first.
pub proof fn four_bytes_are_a_number(d: Seq<u8>, p: int)
    requires
        0 <= p,
        p + 4 <= d.len(),
    ensures
        dwarf::uint(d, p, 4, true) == Ok::<(int, int), Seq<char>>(
            (d[p] + 0x100 * d[p + 1] + 0x1_0000 * d[p + 2] + 0x100_0000 * d[p + 3], p + 4),
        ),
        dwarf::uint(d, p, 4, false) == Ok::<(int, int), Seq<char>>(
            (0x100_0000 * d[p] + 0x1_0000 * d[p + 1] + 0x100 * d[p + 2] + d[p + 3], p + 4),
        ),
{
    reveal_with_fuel(dwarf::le_num, 5);
    reveal_with_fuel(dwarf::be_num, 5);
}

/// A number reads the same with its bytes the other way round, in the other order.
pub proof fn byte_orders_mirror_each_other(d: Seq<u8>, e: Seq<u8>, p: int, q: int, n: nat)
    requires
        0 <= p,
        0 <= q,
        p + n <= d.len(),
        q + n <= e.len(),
        forall|i: int| 0 <= i < n ==> #[trigger] d[p + i] == e[q + n - 1 - i],
    ensures
        dwarf::le_num(d, p, n) == dwarf::be_num(e, q, n),
    decreases n,
{
    if n > 0 {
        assert(d[p + 0] == e[q + n - 1 - 0]);
        assert forall|i: int| 0 <= i < n - 1 implies #[trigger] d[p + 1 + i] == e[q + (n - 1) - 1 - i] by {
            assert(d[p + (i + 1)] == e[q + n - 1 - (i + 1)]);
        }
        byte_orders_mirror_each_other(d, e, p + 1, q, (n - 1) as nat);
    }
}

/// A number of variable length that ends in its first byte is that byte, and one that ends in its
/// second has seven bits in each, the low ones first.
pub proof fn short_numbers_of_variable_length(d: Seq<u8>, p: int)
    requires
        0 <= p < d.len(),
    ensures
        d[p] < 0x80 ==> dwarf::uleb(d, p) == Ok::<(u64, int), Seq<char>>((d[p] as u64, p + 1)),
        d[p] < 0x40 ==> dwarf::sleb(d, p) == Ok::<(i64, int), Seq<char>>((d[p] as i64, p + 1)),
        0x40 <= d[p] < 0x80 ==> dwarf::sleb(d, p) == Ok::<(i64, int), Seq<char>>(((d[p] - 0x80) as i64, p + 1)),
        d[p] >= 0x80 && p + 1 < d.len() && d[p + 1] < 0x80 ==> dwarf::uleb(d, p) == Ok::<(u64, int), Seq<char>>(
            ((d[p] - 0x80 + 0x80 * d[p + 1]) as u64, p + 2),
        ),
        d[p] >= 0x80 && p + 1 == d.len() ==> dwarf::uleb(d, p) is Err && dwarf::sleb(d, p) is Err,
{
    let b = d[p];
    assert(0u64 | (((b & 0x7f) as u64) << 0u64) == (b & 0x7f) as u64) by (bit_vector);
    assert(b < 0x80 ==> b & 0x7f == b && b & 0x80 == 0) by (bit_vector);
    assert(b >= 0x80 ==> b & 0x7f == b - 0x80 && b & 0x80 != 0) by (bit_vector);
    assert(b < 0x40 ==> b & 0x40 == 0) by (bit_vector);
    assert(0x40 <= b < 0x80 ==> b & 0x40 != 0) by (bit_vector);
    assert(0x40 <= b < 0x80 ==> ((((b & 0x7f) as u64) | (0xffff_ffff_ffff_ffffu64 << 7u64)) as i64) == b - 0x80)
        by (bit_vector);
    assert(b < 0x40 ==> ((b & 0x7f) as u64) as i64 == b) by (bit_vector);
    if b >= 0x80 && p + 1 < d.len() && d[p + 1] < 0x80 {
        let c = d[p + 1];
        assert(c < 0x80 ==> c & 0x7f == c && c & 0x80 == 0) by (bit_vector);
        assert(b >= 0x80 && c < 0x80 ==> ((b & 0x7f) as u64) | (((c & 0x7f) as u64) << 7u64) == b - 0x80 + 0x80 * c)
            by (bit_vector);
        assert(dwarf::uleb_from(d, p + 1, 7, (b & 0x7f) as u64) == Ok::<(u64, int), Seq<char>>(
            ((b - 0x80 + 0x80 * c) as u64, p + 2),
        ));
    }
    if b >= 0x80 && p + 1 == d.len() {
        assert(dwarf::uleb_from(d, p + 1, 7, (b & 0x7f) as u64) is Err);
        assert(dwarf::sleb_from(d, p + 1, 7, (b & 0x7f) as u64) is Err);
    }
}

/// A lookup finds the span that holds the address: among spans in the order of their starts, the last
/// that starts at or below the address and ends above it, unless more than seven later ones start at or
/// below the address too.
pub proof fn lookups_find_the_span(s: Seq<Span>, addr: int, k: int)
    requires
        forall|i: int, j: int| 0 <= i <= j < s.len() ==> (#[trigger] s[i]).start <= (#[trigger] s[j]).start,
        0 <= k < s.len(),
        s[k].start <= addr < s[k].end,
        forall|j: int| k < j < s.len() && (#[trigger] s[j]).start <= addr ==> s[j].end <= addr,
        k + 8 < s.len() ==> s[k + 8].start > addr,
    ensures
        dwarf::covering(s, addr, dwarf::below(s, addr, 0), 8) == Some(s[k]),
{
    let n = starts_are_counted(s, addr, 0);
    assert(k < n) by {
        if n <= k {
            assert(s[n].start <= s[k].start);
        }
    }
    assert(n <= k + 8) by {
        if n > k + 8 {
            assert(s[k + 8].start <= addr);
        }
    }
    the_last_that_holds_is_found(s, addr, k, n, 8);
}

proof fn starts_are_counted(s: Seq<Span>, addr: int, i: int) -> (n: int)
    requires
        0 <= i <= s.len(),
    ensures
        n == dwarf::below(s, addr, i),
        i <= n <= s.len(),
        forall|j: int| i <= j < n ==> (#[trigger] s[j]).start <= addr,
        n < s.len() ==> s[n].start > addr,
    decreases s.len() - i,
{
    if i < s.len() && s[i].start <= addr {
        starts_are_counted(s, addr, i + 1)
    } else {
        i
    }
}

proof fn the_last_that_holds_is_found(s: Seq<Span>, addr: int, k: int, i: int, n: nat)
    requires
        0 <= k < i <= s.len(),
        i - k <= n,
        addr < s[k].end,
        forall|j: int| k < j < i ==> (#[trigger] s[j]).end <= addr,
    ensures
        dwarf::covering(s, addr, i, n) == Some(s[k]),
    decreases n,
{
    if k < i - 1 {
        assert(s[i - 1].end <= addr);
        the_last_that_holds_is_found(s, addr, k, i - 1, (n - 1) as nat);
    }
}

/// A table's spans are those that the units gave, each as often, in the order of their starts and, where
/// those are the same, of their ends.
pub proof fn tables_are_in_order(s: Seq<Span>, r: Seq<Span>, i: int, j: int)
    requires
        dwarf::sorts(s, r),
        0 <= i < j < r.len(),
    ensures
        r.len() == s.len(),
        r[i].start < r[j].start || (r[i].start == r[j].start && r[i].end <= r[j].end),
        s.contains(r[i]),
{
    let p = choose|p: Seq<int>| #[trigger]
        dwarf::orders(s, p, 0, s.len() as int) && r == Seq::new(s.len(), |k: int| s[p[k]]);
    assert(dwarf::span_less(s, p[i], p[j]));
    assert(0 <= p[i] < s.len());
    assert(r[i] == s[p[i]] && r[j] == s[p[j]]);
}

/// A path is found in its directory, unless it starts at the root or no directory is known.
pub proof fn paths_stand_in_their_directory(dir: Seq<char>, name: Seq<char>)
    requires
        name.len() > 0,
    ensures
        name[0] == '/' ==> dwarf::joined(dir, name) == name,
        dir.len() == 0 ==> dwarf::joined(dir, name) == name,
        name[0] != '/' && dir.len() > 0 ==> dwarf::joined(dir, name) == dir + "/"@ + name,
{
}

/// The header of a unit that uses short offsets, version by version: where its fields stand.
pub proof fn headers_are_read_where_they_stand(d: Seq<u8>, p: int, little: bool, size: int)
    requires
        dwarf::head_of(d, p, little, size) is Ok,
        0 <= p,
        p + 4 <= d.len(),
        dwarf::uint(d, p, 4, little)->Ok_0.0 != 0xffff_ffff,
    ensures
        ({
            let h = dwarf::head_of(d, p, little, size)->Ok_0;
            let f = if h.version >= 5 {
                p + 8
            } else {
                p + 6
            };
            let g = if h.version >= 4 {
                f + 7
            } else {
                f + 6
            };
            &&& !h.wide
            &&& h.end == p + 4 + dwarf::uint(d, p, 4, little)->Ok_0.0
            &&& h.end <= d.len()
            &&& h.version == dwarf::uint(d, p + 4, 2, little)->Ok_0.0
            &&& 2 <= h.version <= 5
            &&& h.addr_size == if h.version >= 5 {
                d[p + 6] as int
            } else {
                size
            }
            &&& h.program == f + 4 + dwarf::uint(d, f, 4, little)->Ok_0.0
            &&& h.min_inst == d[f + 4]
            &&& h.line_base == d[g] as i8
            &&& h.line_range == d[g + 1]
            &&& h.line_range > 0
            &&& h.opcode_base == d[g + 2]
            &&& h.opcode_base > 0 ==> h.lengths.len() == h.opcode_base - 1
            &&& forall|i: int| 0 <= i < h.lengths.len() ==> #[trigger] h.lengths[i] == d[g + 3 + i]
            &&& h.tables == g + 3 + h.lengths.len()
        }),
{
}

/// Where the sections of a file are: each is described by a header of its own, one behind the other,
/// and its name, its place and its length stand where the file's class puts them.
pub proof fn sections_are_read_where_they_stand(d: Seq<u8>, i: int)
    requires
        dwarf::elf_of(d) is Ok,
        0 <= i < dwarf::elf_of(d)->Ok_0.parts.len(),
    ensures
        ({
            let f = dwarf::elf_of(d)->Ok_0;
            let wide = d[4] == 2;
            let little = d[5] == 1;
            let (at, each) = if wide {
                (dwarf::uint(d, 0x28, 8, little)->Ok_0.0, dwarf::uint(d, 0x3a, 2, little)->Ok_0.0)
            } else {
                (dwarf::uint(d, 0x20, 4, little)->Ok_0.0, dwarf::uint(d, 0x2e, 2, little)->Ok_0.0)
            };
            let count = dwarf::uint(
                d,
                if wide {
                    0x3c
                } else {
                    0x30
                },
                2,
                little,
            )->Ok_0.0;
            let h = at + i * each;
            &&& d[0] == 0x7f && d[1] == 0x45 && d[2] == 0x4c && d[3] == 0x46
            &&& f.data == d
            &&& f.is64 == wide
            &&& f.little == little
            &&& f.parts.len() == count
            &&& f.parts[i].nobits <==> dwarf::uint(d, h + 4, 4, little)->Ok_0.0 == 8
            &&& f.parts[i].offset == if wide {
                dwarf::uint(d, h + 0x18, 8, little)->Ok_0.0
            } else {
                dwarf::uint(d, h + 0x10, 4, little)->Ok_0.0
            }
            &&& f.parts[i].size == if wide {
                dwarf::uint(d, h + 0x20, 8, little)->Ok_0.0
            } else {
                dwarf::uint(d, h + 0x14, 4, little)->Ok_0.0
            }
            &&& !f.parts[i].nobits ==> f.parts[i].offset + f.parts[i].size <= d.len()
        }),
{
    let little = d[5] == 1;
    let wide = d[4] == 2;
    let (at, each, n, names) = dwarf::header_table(d, wide, little)->Ok_0;
    bytes_are_no_less_than_none(d, wide, little);
    let hs = dwarf::headers(d, wide, little, at, each, n as nat)->Ok_0;
    headers_stand(d, wide, little, at, each, n as nat, i);
    parts_stand(d, hs, hs[names].offset, hs.len(), i);
}

proof fn bytes_are_no_less_than_none(d: Seq<u8>, wide: bool, little: bool)
    requires
        dwarf::header_table(d, wide, little) is Ok,
    ensures
        dwarf::header_table(d, wide, little)->Ok_0.2 >= 0,
{
    reveal_with_fuel(dwarf::le_num, 3);
    reveal_with_fuel(dwarf::be_num, 3);
}

proof fn headers_stand(d: Seq<u8>, wide: bool, little: bool, at: int, each: int, n: nat, i: int)
    requires
        dwarf::headers(d, wide, little, at, each, n) is Ok,
    ensures
        dwarf::headers(d, wide, little, at, each, n)->Ok_0.len() == n,
        0 <= i < n ==> dwarf::header(d, wide, little, at + i * each) == Ok::<dwarf::Header, Seq<char>>(
            dwarf::headers(d, wide, little, at, each, n)->Ok_0[i],
        ),
    decreases n,
{
    if n > 0 {
        headers_stand(d, wide, little, at, each, (n - 1) as nat, i);
    }
}

proof fn parts_stand(d: Seq<u8>, hs: Seq<dwarf::Header>, names: int, n: nat, i: int)
    requires
        n <= hs.len(),
        dwarf::named_parts(d, hs, names, n) is Ok,
    ensures
        dwarf::named_parts(d, hs, names, n)->Ok_0.len() == n,
        0 <= i < n ==> {
            let p = dwarf::named_parts(d, hs, names, n)->Ok_0[i];
            &&& p.offset == hs[i].offset
            &&& p.size == hs[i].size
            &&& p.nobits == (hs[i].kind == 8)
            &&& !p.nobits ==> p.offset + p.size <= d.len()
            &&& dwarf::text_at(d, names + hs[i].name) is Some ==> p.name == dwarf::text_at(d, names + hs[i].name)->0
        },
    decreases n,
{
    if n > 0 {
        parts_stand(d, hs, names, (n - 1) as nat, i);
    }
}

/// A section is the first of its name that has contents.
pub proof fn sections_are_found_by_name(f: File, name: Seq<char>, k: int)
    requires
        0 <= k < f.parts.len(),
        f.parts[k].name == name,
        !f.parts[k].nobits,
        forall|i: int| 0 <= i < k ==> (#[trigger] f.parts[i]).name != name || f.parts[i].nobits,
    ensures
        dwarf::contents(f, name) == Some(f.data.subrange(f.parts[k].offset, f.parts[k].offset + f.parts[k].size)),
{
    the_first_of_a_name(f.parts, name, k, 0);
}

proof fn the_first_of_a_name(v: Seq<Part>, name: Seq<char>, k: int, i: int)
    requires
        0 <= i <= k < v.len(),
        v[k].name == name,
        !v[k].nobits,
        forall|j: int| i <= j < k ==> (#[trigger] v[j]).name != name || v[j].nobits,
    ensures
        dwarf::part_from(v, name, i) == Some(v[k]),
    decreases k - i,
{
    if i < k {
        assert(v[i].name != name || v[i].nobits);
        the_first_of_a_name(v, name, k, i + 1);
    }
}

} // verus!
