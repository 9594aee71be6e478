//! What is read out of what a guest prints and of what tools list, and when a run is given up, said of
//! the lines, the bytes and the times themselves.

use vstd::prelude::*;
use vstd::string::*;

use crate::bootcfg;
use crate::bootstack;
use crate::bytes;
use crate::crashtest;
use crate::fpregs;
use crate::image;
use crate::kcfg::expr::Tri;
use crate::kcfg::resolve;
use crate::qemu::watch;
use crate::qemu::watch::Watch;
use crate::sdk;
use crate::text;

verus! {

/// A guest that is watched is stuck exactly where it has not beaten once within the time for the first
/// heartbeat, or has not beaten since within the time between two.
pub proof fn guests_are_stuck_without_heartbeats(w: Watch, seen: u64, elapsed_ms: u64, last_beat_ms: u64)
    ensures
        watch::stuck_for(w, seen, elapsed_ms, last_beat_ms) is Some <==> {
            ||| seen == 0 && elapsed_ms >= w.first_within * 1000
            ||| seen > 0 && elapsed_ms >= last_beat_ms && elapsed_ms - last_beat_ms >= w.every_within * 1000
            ||| seen > 0 && w.every_within == 0
        },
{
}

proof fn typing_answers_what_is_shown(shown: Seq<u8>, v: Seq<(Seq<u8>, Seq<u8>)>, n: nat, i: int)
    requires
        0 <= i < n <= v.len(),
    ensures
        watch::shows(shown, v[i]) ==> exists|a: Seq<u8>, b: Seq<u8>|
            watch::typed_for(shown, v, n) == #[trigger] (a + v[i].1 + b),
    decreases n,
{
    let before = watch::typed_for(shown, v, (n - 1) as nat);
    let all = watch::typed_for(shown, v, n);
    let none = Seq::<u8>::empty();
    if i < n - 1 {
        typing_answers_what_is_shown(shown, v, (n - 1) as nat, i);
        if watch::shows(shown, v[i]) {
            let (a, b) = choose|a: Seq<u8>, b: Seq<u8>| before == #[trigger] (a + v[i].1 + b);
            if watch::shows(shown, v[n - 1]) {
                assert(all =~= a + v[i].1 + (b + v[n - 1].1));
            } else {
                assert(all =~= a + v[i].1 + b);
            }
        }
    } else if watch::shows(shown, v[i]) {
        assert(all =~= before + v[i].1 + none);
    }
}

proof fn waiting_are_those_not_shown(shown: Seq<u8>, v: Seq<(Seq<u8>, Seq<u8>)>, n: nat, p: (Seq<u8>, Seq<u8>))
    requires
        n <= v.len(),
    ensures
        watch::still_waiting(shown, v, n).contains(p) <==> !watch::shows(shown, p) && exists|i: int|
            0 <= i < n && #[trigger] v[i] == p,
    decreases n,
{
    if n > 0 {
        waiting_are_those_not_shown(shown, v, (n - 1) as nat, p);
        let before = watch::still_waiting(shown, v, (n - 1) as nat);
        let all = watch::still_waiting(shown, v, n);
        let x = v[n - 1];
        if !watch::shows(shown, x) {
            assert(all[before.len() as int] == x);
            if before.contains(p) {
                let q = before.index_of(p);
                assert(all[q] == p);
            }
            if all.contains(p) {
                let q = choose|q: int| 0 <= q < all.len() && all[q] == p;
                if q < before.len() {
                    assert(before[q] == p);
                } else {
                    assert(v[n - 1] == p);
                }
            }
        }
        if exists|i: int| 0 <= i < n && #[trigger] v[i] == p {
            let i = choose|i: int| 0 <= i < n && #[trigger] v[i] == p;
            if i < n - 1 {
                assert(0 <= i < n - 1 && v[i] == p);
            }
        }
    }
}

/// What is shown is answered, once: the keys of every prompt that has been shown are typed and it is
/// waited for no longer, and every other prompt is waited for still.
pub proof fn prompts_are_answered_once(shown: Seq<u8>, v: Seq<(Seq<u8>, Seq<u8>)>, i: int)
    requires
        0 <= i < v.len(),
    ensures
        watch::shows(shown, v[i]) ==> exists|a: Seq<u8>, b: Seq<u8>|
            watch::typed_for(shown, v, v.len()) == #[trigger] (a + v[i].1 + b),
        watch::still_waiting(shown, v, v.len()).contains(v[i]) <==> !watch::shows(shown, v[i]),
        (forall|k: int| 0 <= k < v.len() ==> !watch::shows(shown, #[trigger] v[k])) ==> watch::typed_for(
            shown,
            v,
            v.len(),
        ).len() == 0,
{
    typing_answers_what_is_shown(shown, v, v.len(), i);
    waiting_are_those_not_shown(shown, v, v.len(), v[i]);
    if forall|k: int| 0 <= k < v.len() ==> !watch::shows(shown, #[trigger] v[k]) {
        nothing_is_typed(shown, v, v.len());
    }
}

proof fn nothing_is_typed(shown: Seq<u8>, v: Seq<(Seq<u8>, Seq<u8>)>, n: nat)
    requires
        n <= v.len(),
        forall|k: int| 0 <= k < v.len() ==> !watch::shows(shown, #[trigger] v[k]),
    ensures
        watch::typed_for(shown, v, n).len() == 0,
    decreases n,
{
    if n > 0 {
        assert(!watch::shows(shown, v[n - 1]));
        nothing_is_typed(shown, v, (n - 1) as nat);
    }
}

/// Of what was shown, no less is kept than the longest prompt takes behind the part that is new, so that
/// a prompt is found wherever the output is cut.
pub proof fn no_prompt_is_cut(v: Seq<(Seq<u8>, Seq<u8>)>, n: nat, i: int)
    requires
        0 <= i < n <= v.len(),
    ensures
        v[i].0.len() <= watch::longest(v, n),
        exists|k: int| 0 <= k < n && (#[trigger] v[k]).0.len() == watch::longest(v, n) || watch::longest(v, n) == 0,
    decreases n,
{
    if n > 1 {
        if i < n - 1 {
            no_prompt_is_cut(v, (n - 1) as nat, i);
        } else {
            no_prompt_is_cut(v, (n - 1) as nat, 0);
        }
        let rest = watch::longest(v, (n - 1) as nat);
        if v[n - 1].0.len() > rest {
            assert(v[n - 1].0.len() == watch::longest(v, n));
        } else {
            let k = choose|k: int| 0 <= k < n - 1 && (#[trigger] v[k]).0.len() == rest || rest == 0;
            assert(v[k].0.len() == watch::longest(v, n) || watch::longest(v, n) == 0);
        }
    } else {
        assert(watch::longest(v, 0) == 0);
        assert(v[0].0.len() == watch::longest(v, 1) || watch::longest(v, 1) == 0);
    }
}

proof fn the_first_address(lines: Seq<Seq<char>>, name: Seq<char>, k: int, i: int)
    requires
        0 <= i <= k < lines.len(),
        bootstack::address_in(lines[k], name) is Some,
        forall|j: int| i <= j < k ==> bootstack::address_in(#[trigger] lines[j], name) is None,
    ensures
        bootstack::address_of(lines, name, i) == bootstack::address_in(lines[k], name),
    decreases k - i,
{
    if i < k {
        assert(bootstack::address_in(lines[i], name) is None);
        the_first_address(lines, name, k, i + 1);
    }
}

/// A boot stack is what the configuration asks for where the image reserves no less than that, and less
/// than a page more: its two ends are the addresses of two symbols, each where it is listed first.
pub proof fn boot_stacks_are_of_the_size_asked_for(listing: Seq<char>, kib: int, b: int, t: int)
    requires
        ({
            let lines = text::lines(listing, 0);
            &&& 0 <= b < lines.len() && 0 <= t < lines.len()
            &&& bootstack::address_in(lines[b], "__stack_bottom"@) is Some
            &&& bootstack::address_in(lines[t], "__stack_top"@) is Some
            &&& forall|j: int| 0 <= j < b ==> bootstack::address_in(#[trigger] lines[j], "__stack_bottom"@) is None
            &&& forall|j: int| 0 <= j < t ==> bootstack::address_in(#[trigger] lines[j], "__stack_top"@) is None
        }),
        kib >= 0,
    ensures
        ({
            let lines = text::lines(listing, 0);
            let bottom = bootstack::address_in(lines[b], "__stack_bottom"@)->0;
            let top = bootstack::address_in(lines[t], "__stack_top"@)->0;
            let r = bootstack::reserved_of(listing, kib);
            let size = top - bottom;
            &&& top > bottom ==> (r is Ok <==> kib * 1024 <= size < kib * 1024 + 4096)
            &&& top > bottom && r is Ok ==> r->Ok_0 == size
            &&& top <= bottom ==> (r is Ok <==> kib == 0)
        }),
{
    let lines = text::lines(listing, 0);
    the_first_address(lines, "__stack_bottom"@, b, 0);
    the_first_address(lines, "__stack_top"@, t, 0);
}

/// Counting lines goes line by line: each instruction that is looked for counts once, and lines counted in
/// two parts count as they do in one.
pub proof fn instructions_are_counted_line_by_line(
    lines: Seq<Seq<char>>,
    wanted: Seq<Seq<char>>,
    n: nat,
)
    requires
        n < lines.len(),
    ensures
        fpregs::count_lines(lines, wanted, n + 1) == fpregs::count_lines(lines, wanted, n) + if fpregs::counts(
            lines[n as int],
            wanted,
        ) {
            1int
        } else {
            0
        },
        fpregs::count_lines(lines, wanted, 0) == 0,
        fpregs::count_lines(lines, wanted, n) <= n,
    decreases n,
{
    if n > 0 {
        instructions_are_counted_line_by_line(lines, wanted, (n - 1) as nat);
    }
}

proof fn next_is(s: Seq<char>, c: char, n: int, i: int)
    requires
        0 <= i <= n < s.len(),
        s[n] == c,
        forall|j: int| i <= j < n ==> #[trigger] s[j] != c,
    ensures
        text::next_of(s, c, i) == n,
    decreases n - i,
{
    if i < n {
        assert(s[i] != c);
        next_is(s, c, n, i + 1);
    }
}

proof fn mnemonics_end(s: Seq<char>, n: int, i: int)
    requires
        0 <= i <= n <= s.len(),
        n < s.len() ==> s[n] == '\t' || s[n] == ' ',
        forall|j: int| i <= j < n ==> #[trigger] s[j] != '\t' && s[j] != ' ',
    ensures
        fpregs::mnemonic_end(s, i) == n,
    decreases n - i,
{
    if i < n {
        assert(s[i] != '\t' && s[i] != ' ');
        mnemonics_end(s, n, i + 1);
    }
}

/// A disassembled line holds its instruction behind the address, its colon and a tab, up to a blank.
pub proof fn instructions_stand_behind_the_tab(
    address: Seq<char>,
    code: Seq<char>,
    name: Seq<char>,
    operands: Seq<char>,
)
    requires
        forall|i: int| 0 <= i < address.len() ==> #[trigger] address[i] != ':',
        forall|i: int| 0 <= i < code.len() ==> #[trigger] code[i] != '\t',
        forall|i: int| 0 <= i < name.len() ==> #[trigger] name[i] != '\t' && name[i] != ' ',
    ensures
        fpregs::mnemonic(address + seq![':'] + code + seq!['\t'] + name + seq![' '] + operands) == Some(name),
{
    let s = address + seq![':'] + code + seq!['\t'] + name + seq![' '] + operands;
    let n = address.len() as int;
    let m = n + 1 + code.len();
    let e = m + 1 + name.len();
    assert forall|j: int| 0 <= j < n implies #[trigger] s[j] != ':' by {
        assert(s[j] == address[j]);
    }
    next_is(s, ':', n, 0);
    assert forall|j: int| n + 1 <= j < m implies #[trigger] s[j] != '\t' by {
        assert(s[j] == code[j - n - 1]);
    }
    next_is(s, '\t', m, n + 1);
    assert forall|j: int| m + 1 <= j < e implies #[trigger] s[j] != '\t' && s[j] != ' ' by {
        assert(s[j] == name[j - m - 1]);
    }
    mnemonics_end(s, e, m + 1);
    assert(s.subrange(m + 1, e) =~= name);
}

/// What a shell makes of the inside of a quotation: a backslash gives the character behind it.
pub open spec fn unescaped(s: Seq<char>) -> Seq<char>
    decreases s.len(),
{
    if s.len() == 0 {
        seq![]
    } else if s[0] == '\\' && s.len() >= 2 {
        seq![s[1]] + unescaped(s.subrange(2, s.len() as int))
    } else {
        seq![s[0]] + unescaped(s.subrange(1, s.len() as int))
    }
}

proof fn escapes_come_off(s: Seq<char>, n: nat, rest: Seq<char>)
    requires
        n <= s.len(),
    ensures
        unescaped(sdk::escaped(s, n) + rest) == s.subrange(0, n as int) + unescaped(rest),
    decreases n,
{
    if n == 0 {
        assert(sdk::escaped(s, 0) + rest =~= rest);
        assert(s.subrange(0, 0) + unescaped(rest) =~= unescaped(rest));
    } else {
        let c = s[n - 1];
        let before = sdk::escaped(s, (n - 1) as nat);
        let tail = if sdk::special(c) {
            seq!['\\', c]
        } else {
            seq![c]
        } + rest;
        assert(sdk::escaped(s, n) + rest =~= before + tail);
        escapes_come_off(s, (n - 1) as nat, tail);
        if sdk::special(c) {
            assert(tail.subrange(2, tail.len() as int) =~= rest);
        } else {
            assert(tail[0] == c);
            assert(tail.subrange(1, tail.len() as int) =~= rest);
        }
        assert(unescaped(tail) == seq![c] + unescaped(rest));
        assert(s.subrange(0, n - 1) + (seq![c] + unescaped(rest)) =~= s.subrange(0, n as int) + unescaped(rest));
    }
}

/// A quoted word reads back as itself: a shell takes off the quotation marks and the backslashes, and what
/// is left is the word.
pub proof fn quoted_words_read_back(s: Seq<char>)
    ensures
        ({
            let q = sdk::shell_quoted(s);
            &&& q.len() >= 2
            &&& q[0] == '"' && q.last() == '"'
            &&& unescaped(q.subrange(1, q.len() - 1)) == s
        }),
{
    let q = sdk::shell_quoted(s);
    let none = Seq::<char>::empty();
    assert(q.subrange(1, q.len() - 1) =~= sdk::escaped(s, s.len()) + none);
    escapes_come_off(s, s.len(), none);
    assert(unescaped(none) =~= seq![]);
    assert(s.subrange(0, s.len() as int) + none =~= s);
}

/// How much a crash workload did is what it said last.
pub proof fn the_last_count_is_taken(lines: Seq<Seq<char>>, n: nat, k: int)
    requires
        0 <= k < n <= lines.len(),
        crashtest::ops_in(lines[k]) is Some,
        forall|j: int| k < j < n ==> crashtest::ops_in(#[trigger] lines[j]) is None,
    ensures
        crashtest::last_ops(lines, n) == crashtest::ops_in(lines[k])->0,
    decreases n,
{
    if k < n - 1 {
        assert(crashtest::ops_in(lines[n - 1]) is None);
        the_last_count_is_taken(lines, (n - 1) as nat, k);
    }
}

/// The mode that a kernel boots into: safe where that is on, else recovery where that is, else normal; and
/// what the configuration adds to the command line stands behind it.
pub proof fn kernels_are_told_their_mode(o: resolve::Outcome)
    ensures
        ({
            let on = |s: &str| resolve::tri_in(o.names, o.vals, s@) != Tri::N;
            let extra = text::trimmed(resolve::str_in(o, "CMDLINE"@));
            &&& on("BOOT_MODE_SAFE") ==> bootcfg::mode_of(o) == "safe"@
            &&& !on("BOOT_MODE_SAFE") && on("BOOT_MODE_RECOVERY") ==> bootcfg::mode_of(o) == "recovery"@
            &&& !on("BOOT_MODE_SAFE") && !on("BOOT_MODE_RECOVERY") ==> bootcfg::mode_of(o) == "normal"@
            &&& extra.len() == 0 ==> bootcfg::command_line(o) == "mode="@ + bootcfg::mode_of(o)
            &&& extra.len() > 0 ==> bootcfg::command_line(o) == "mode="@ + bootcfg::mode_of(o) + " "@ + extra
        }),
{
}

proof fn lowest_is_least(d: Seq<u8>, h: image::Head, n: nat, i: int)
    requires
        image::lowest(d, h, n) is Ok,
        0 <= i < n,
    ensures
        ({
            let least = image::lowest(d, h, n)->Ok_0;
            let there = image::load_at(d, h.wide, h.start + i * h.step);
            &&& there is Ok
            &&& there->Ok_0 is Some ==> least <= there->Ok_0->0
        }),
    decreases n,
{
    if i < n - 1 {
        lowest_is_least(d, h, (n - 1) as nat, i);
    }
}

proof fn lowest_is_one(d: Seq<u8>, h: image::Head, n: nat) -> (i: int)
    requires
        image::lowest(d, h, n) is Ok,
        image::lowest(d, h, n)->Ok_0 != u64::MAX,
    ensures
        0 <= i < n,
        image::load_at(d, h.wide, h.start + i * h.step) == Ok::<Option<int>, Seq<char>>(
            Some(image::lowest(d, h, n)->Ok_0),
        ),
    decreases n,
{
    let before = image::lowest(d, h, (n - 1) as nat)->Ok_0;
    if image::lowest(d, h, n)->Ok_0 == before {
        lowest_is_one(d, h, (n - 1) as nat)
    } else {
        n - 1
    }
}

/// An image is loaded at the lowest address of any segment that has something to load, and entered where
/// its header says.
pub proof fn images_load_at_their_lowest_segment(d: Seq<u8>, i: int)
    requires
        image::boot_addresses(d) is Ok,
        0 <= i < image::head(d)->Ok_0.count,
    ensures
        ({
            let (entry, load) = image::boot_addresses(d)->Ok_0;
            let h = image::head(d)->Ok_0;
            let p = h.start + i * h.step;
            let size = if h.wide {
                bytes::le64(d, p + 40)
            } else {
                bytes::le32(d, p + 20)
            };
            let at = if h.wide {
                bytes::le64(d, p + 24)
            } else {
                bytes::le32(d, p + 12)
            };
            &&& h.wide <==> d[4] == 2
            &&& d[4] == 2 ==> entry == bytes::le64(d, 24) && h.start == bytes::le64(d, 32) && h.step == bytes::le16(d, 54)
                && h.count == bytes::le16(d, 56)
            &&& d[4] == 1 ==> entry == bytes::le32(d, 24) && h.start == bytes::le32(d, 28) && h.step == bytes::le16(d, 42)
                && h.count == bytes::le16(d, 44)
            &&& bytes::le32(d, p) == 1 && size != 0 ==> load <= at
            &&& exists|j: int|
                0 <= j < h.count && #[trigger] image::load_at(d, h.wide, h.start + j * h.step) == Ok::<
                    Option<int>,
                    Seq<char>,
                >(Some(load))
        }),
{
    let h = image::head(d)->Ok_0;
    assert(h.count >= 0);
    lowest_is_least(d, h, h.count as nat, i);
    let j = lowest_is_one(d, h, h.count as nat);
    assert(image::load_at(d, h.wide, h.start + j * h.step) == Ok::<Option<int>, Seq<char>>(
        Some(image::boot_addresses(d)->Ok_0.1),
    ));
}

} // verus!
