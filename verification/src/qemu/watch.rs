//! Watching a guest run: what its console shows, what is typed in answer, when it is stuck, and
//! what the run comes to.
//!
//! The console decides only that a guest is stuck, never that it passed: the verdict is the exit
//! status alone.

use vstd::prelude::*;
use vstd::string::*;

use crate::bytes;
use crate::qemu::Machine;
use crate::text;

verus! {

/// A liveness watch on the guest's console: a line that the guest must keep printing.
pub struct Watch {
    /// Bytes that mark one heartbeat.
    pub marker: &'static [u8],
    /// The first heartbeat must arrive within this many seconds of starting QEMU.
    pub first_within: u64,
    /// Each later heartbeat must arrive within this many seconds of the one before.
    pub every_within: u64,
}

/// What is known of a run.
#[derive(Debug)]
pub struct Outcome {
    pub code: Option<i32>,
    pub passed: bool,
    /// The guest never signalled and was killed.
    pub timed_out: bool,
    /// Everything that the guest wrote to its serial console.
    pub console: Vec<u8>,
    /// Why a [`Watch`] killed the guest, when one did.
    pub hung: Option<String>,
}

/// Counts a marker in a byte stream that arrives in chunks of any size, so that a marker split
/// across two of them is still counted once.
pub struct MarkerCounter {
    pub marker: &'static [u8],
    /// The last bytes seen, one fewer than the marker has, which a marker could continue from.
    pub tail: Vec<u8>,
    pub count: u64,
}

/// How often a marker stands in a byte string.
pub open spec fn occurrences(marker: Seq<u8>, hay: Seq<u8>) -> nat {
    if marker.len() == 0 {
        0
    } else {
        bytes::places(hay, marker, 0).len()
    }
}

/// The last bytes of a byte string, at most `n`.
pub open spec fn last_bytes(s: Seq<u8>, n: int) -> Seq<u8> {
    if n >= s.len() {
        s
    } else {
        s.subrange(s.len() - n, s.len() as int)
    }
}

impl MarkerCounter {
    /// Whether this is the counter of everything in `all`.
    pub open spec fn has_seen(&self, all: Seq<u8>) -> bool {
        self.count == occurrences(self.marker@, all) && (self.marker@.len() > 0 ==> self.tail@ == last_bytes(
            all,
            self.marker@.len() - 1,
        ))
    }

    pub fn new(marker: &'static [u8]) -> (r: Self)
        ensures
            r.marker@ == marker@,
            r.has_seen(seq![]),
    {
        let r = MarkerCounter { marker, tail: Vec::new(), count: 0 };
        assert(r.tail@ =~= seq![]);
        r
    }

    /// Feed one chunk; returns how many markers ended inside it.
    pub fn feed(&mut self, chunk: &[u8]) -> (r: u64)
        requires
            old(self).count + occurrences(old(self).marker@, old(self).tail@ + chunk@) <= u64::MAX,
        ensures
            final(self).marker == old(self).marker,
            r == occurrences(old(self).marker@, old(self).tail@ + chunk@),
            final(self).count == old(self).count + r,
            forall|all: Seq<u8>| #[trigger] old(self).has_seen(all) ==> final(self).has_seen(all + chunk@),
            old(self).marker@.len() > 0 ==> final(self).tail@ == last_bytes(
                old(self).tail@ + chunk@,
                old(self).marker@.len() - 1,
            ),
    {
        if self.marker.len() == 0 {
            return 0;
        }
        let ghost before = *self;
        let mut window = bytes::copied(self.tail.as_slice(), 0, self.tail.len());
        assert(window@ =~= before.tail@);
        bytes::push_all(&mut window, chunk);
        let found: u64 = bytes::all_places(window.as_slice(), self.marker).len() as u64;
        let keep: usize = if self.marker.len() - 1 < window.len() {
            self.marker.len() - 1
        } else {
            window.len()
        };
        self.tail = bytes::copied(window.as_slice(), window.len() - keep, window.len());
        assert(self.tail@ =~= last_bytes(window@, before.marker@.len() - 1));
        self.count = self.count + found;
        assert forall|all: Seq<u8>| #[trigger] before.has_seen(all) implies self.has_seen(all + chunk@) by {
            counts_join(before.marker@, all, chunk@);
        }
        found
    }
}

/// The occurrences from a place on are those of what stands there.
proof fn places_shift(m: Seq<u8>, hay: Seq<u8>, k: int, i: int)
    requires
        m.len() > 0,
        0 <= k,
        0 <= i,
        k + i <= hay.len(),
    ensures
        bytes::places(hay, m, k + i).len() == bytes::places(hay.subrange(k, hay.len() as int), m, i).len(),
    decreases hay.len() - i,
{
    let rest = hay.subrange(k, hay.len() as int);
    if k + i + m.len() <= hay.len() {
        places_shift(m, hay, k, i + 1);
        assert(hay.subrange(k + i, k + i + m.len()) =~= rest.subrange(i, i + m.len()));
    }
}

/// What a marker has in a longer string: what it has in the front of it, and what ends behind that.
proof fn places_extend(m: Seq<u8>, all: Seq<u8>, chunk: Seq<u8>, i: int)
    requires
        m.len() > 0,
        0 <= i,
        i + m.len() <= all.len() + 1,
    ensures
        bytes::places(all + chunk, m, i).len() == bytes::places(all, m, i).len() + bytes::places(
            all + chunk,
            m,
            all.len() + 1 - m.len(),
        ).len(),
    decreases all.len() - i,
{
    let hay = all + chunk;
    if i + m.len() <= all.len() {
        places_extend(m, all, chunk, i + 1);
        assert(hay.subrange(i, i + m.len()) =~= all.subrange(i, i + m.len()));
    }
}

proof fn counts_join(m: Seq<u8>, all: Seq<u8>, chunk: Seq<u8>)
    requires
        m.len() > 0,
    ensures
        occurrences(m, all + chunk) == occurrences(m, all) + occurrences(m, last_bytes(all, m.len() - 1) + chunk),
        last_bytes(all + chunk, m.len() - 1) == last_bytes(last_bytes(all, m.len() - 1) + chunk, m.len() - 1),
{
    let n = m.len() - 1;
    let window = last_bytes(all, n) + chunk;
    let hay = all + chunk;
    assert(last_bytes(hay, n) =~= last_bytes(window, n));
    if n >= all.len() {
        assert(window =~= hay);
    } else {
        let k = all.len() - n;
        places_extend(m, all, chunk, 0);
        assert(hay.subrange(k, hay.len() as int) =~= window);
        places_shift(m, hay, k, 0);
    }
}

/// Feeding a stream in chunks counts what the whole stream holds: a marker is counted once, wherever
/// the stream is cut.
pub proof fn markers_are_counted_once(marker: Seq<u8>, a: Seq<u8>, b: Seq<u8>)
    requires
        marker.len() > 0,
    ensures
        occurrences(marker, a + b) == occurrences(marker, a) + occurrences(
            marker,
            last_bytes(a, marker.len() - 1) + b,
        ),
{
    counts_join(marker, a, b);
}

/// What a loader prints when its menu is ready for a key: `boots an entry, Enter the marked one`.
pub const MENU_PROMPT: &'static str = "boots an entry, Enter the marked one";

/// What the kernel's serial receive check prints while it waits, and what to type when it does.
pub const SERIAL_PROBES: [(&'static str, &'static str); 2] = [
    ("serial probe 1: waiting for input", "kintane-probe-1"),
    ("serial probe 2: waiting for input", "kintane-probe-2"),
];

/// Bytes to type, and the prompt to wait for.
#[derive(Debug)]
pub struct Pending {
    pub prompt: Vec<u8>,
    pub keys: Vec<u8>,
}

/// Bytes to type, with the prompt to wait for.
pub open spec fn waits(v: Seq<Pending>) -> Seq<(Seq<u8>, Seq<u8>)> {
    v.map_values(|p: Pending| (p.prompt@, p.keys@))
}

/// What a machine wants typed: the menu keys at the loader's menu, and each serial probe when the
/// kernel's receive check says that it is waiting.
pub open spec fn wanted(input: Seq<u8>, serial_probe: bool) -> Seq<(Seq<u8>, Seq<u8>)> {
    (if input.len() == 0 {
        seq![]
    } else {
        seq![(vstd::utf8::encode_utf8(MENU_PROMPT@), input)]
    }) + if serial_probe {
        seq![
            (
                vstd::utf8::encode_utf8("serial probe 1: waiting for input"@),
                vstd::utf8::encode_utf8("kintane-probe-1"@),
            ),
            (
                vstd::utf8::encode_utf8("serial probe 2: waiting for input"@),
                vstd::utf8::encode_utf8("kintane-probe-2"@),
            ),
        ]
    } else {
        seq![]
    }
}

fn push_pending(v: &mut Vec<Pending>, prompt: &[u8], keys: &[u8])
    ensures
        waits(final(v)@) == waits(old(v)@).push((prompt@, keys@)),
{
    let ghost before = waits(v@);
    let p = bytes::copied(prompt, 0, prompt.len());
    let k = bytes::copied(keys, 0, keys.len());
    assert(p@ =~= prompt@ && k@ =~= keys@);
    v.push(Pending { prompt: p, keys: k });
    assert(waits(v@) =~= before.push((prompt@, keys@)));
}

/// What a machine wants typed.
pub fn pending(m: &Machine) -> (r: Vec<Pending>)
    ensures
        waits(r@) == wanted(m.input@, m.serial_probe),
{
    let mut v: Vec<Pending> = Vec::new();
    assert(waits(v@) =~= seq![]);
    if m.input.len() > 0 {
        push_pending(&mut v, MENU_PROMPT.as_bytes(), m.input.as_slice());
    }
    if m.serial_probe {
        push_pending(&mut v, SERIAL_PROBES[0].0.as_bytes(), SERIAL_PROBES[0].1.as_bytes());
        push_pending(&mut v, SERIAL_PROBES[1].0.as_bytes(), SERIAL_PROBES[1].1.as_bytes());
    }
    assert(waits(v@) =~= wanted(m.input@, m.serial_probe));
    v
}

/// Whether a byte string holds another.
pub fn contains(haystack: &[u8], needle: &[u8]) -> (r: bool)
    ensures
        r == (bytes::find(haystack@, needle@, 0) is Some),
{
    bytes::find_bytes(haystack, needle, 0).is_some()
}

/// The longest prompt that is waited for.
pub open spec fn longest(v: Seq<(Seq<u8>, Seq<u8>)>, n: nat) -> int
    decreases n,
{
    if n == 0 {
        0
    } else {
        let rest = longest(v, (n - 1) as nat);
        if v[n - 1].0.len() > rest {
            v[n - 1].0.len() as int
        } else {
            rest
        }
    }
}

/// What of the console is searched when `n` bytes have arrived: those, and enough before them to
/// hold a prompt that was split.
pub open spec fn recent(kept: Seq<u8>, n: int, waiting: Seq<(Seq<u8>, Seq<u8>)>) -> Seq<u8> {
    last_bytes(kept, n + longest(waiting, waiting.len()))
}

/// Whether a prompt has been seen.
pub open spec fn shows(shown: Seq<u8>, p: (Seq<u8>, Seq<u8>)) -> bool {
    bytes::find(shown, p.0, 0) is Some
}

/// What is typed for the prompts among the first `n` that are seen, one after the other.
pub open spec fn typed_for(shown: Seq<u8>, v: Seq<(Seq<u8>, Seq<u8>)>, n: nat) -> Seq<u8>
    decreases n,
{
    if n == 0 {
        seq![]
    } else if shows(shown, v[n - 1]) {
        typed_for(shown, v, (n - 1) as nat) + v[n - 1].1
    } else {
        typed_for(shown, v, (n - 1) as nat)
    }
}

/// What is still waited for among the first `n`.
pub open spec fn still_waiting(shown: Seq<u8>, v: Seq<(Seq<u8>, Seq<u8>)>, n: nat) -> Seq<(Seq<u8>, Seq<u8>)>
    decreases n,
{
    if n == 0 {
        seq![]
    } else if shows(shown, v[n - 1]) {
        still_waiting(shown, v, (n - 1) as nat)
    } else {
        still_waiting(shown, v, (n - 1) as nat).push(v[n - 1])
    }
}

/// The console of a running guest.
pub struct Console {
    /// Everything that was printed.
    pub kept: Vec<u8>,
    /// The heartbeats seen.
    pub counter: MarkerCounter,
    /// What is still to be typed.
    pub waiting: Vec<Pending>,
}

/// What a chunk of console output leads to.
pub struct Noticed {
    /// Whether a heartbeat ended in it.
    pub beat: bool,
    /// What is typed in answer.
    pub typed: Vec<u8>,
}

impl Console {
    /// Whether the console holds what its counter has counted.
    pub open spec fn valid(&self) -> bool {
        self.counter.has_seen(self.kept@)
    }

    /// The console of a machine that has not printed anything yet. Without a watch nothing is
    /// counted.
    pub fn new(m: &Machine, watch: &Option<Watch>) -> (r: Console)
        ensures
            r.valid(),
            r.kept@ == Seq::<u8>::empty(),
            r.counter.marker@ == match watch {
                Some(w) => w.marker@,
                None => Seq::<u8>::empty(),
            },
            waits(r.waiting@) == wanted(m.input@, m.serial_probe),
    {
        let counter = match watch {
            Some(w) => MarkerCounter::new(w.marker),
            None => MarkerCounter::new(&[]),
        };
        let c = Console { kept: Vec::new(), counter, waiting: pending(m) };
        assert(c.kept@ =~= seq![]);
        c
    }

    fn reach(&self) -> (r: usize)
        ensures
            r == longest(waits(self.waiting@), waits(self.waiting@).len()),
    {
        let ghost all = waits(self.waiting@);
        let mut most: usize = 0;
        let mut i: usize = 0;
        while i < self.waiting.len()
            invariant
                i <= self.waiting@.len(),
                all == waits(self.waiting@),
                most == longest(all, i as nat),
            decreases self.waiting@.len() - i,
        {
            assert(all[i as int].0 == self.waiting@[i as int].prompt@);
            if self.waiting[i].prompt.len() > most {
                most = self.waiting[i].prompt.len();
            }
            i += 1;
        }
        most
    }

    /// Take a chunk of console output.
    pub fn take(&mut self, chunk: &[u8]) -> (r: Noticed)
        requires
            old(self).valid(),
            old(self).kept@.len() + chunk@.len() <= usize::MAX,
        ensures
            final(self).valid(),
            final(self).kept@ == old(self).kept@ + chunk@,
            final(self).counter.marker == old(self).counter.marker,
            r.beat == (final(self).counter.count > old(self).counter.count),
            ({
                let waiting = waits(old(self).waiting@);
                let shown = recent(final(self).kept@, chunk@.len() as int, waiting);
                &&& r.typed@ == typed_for(shown, waiting, waiting.len())
                &&& waits(final(self).waiting@) == still_waiting(shown, waiting, waiting.len())
            }),
    {
        proof {
            counts_are_short(self.counter.marker@, self.counter.tail@ + chunk@);
            counts_are_short(self.counter.marker@, self.kept@ + chunk@);
            if self.counter.marker@.len() > 0 {
                counts_join(self.counter.marker@, self.kept@, chunk@);
            }
        }
        let ghost kept_before = self.kept@;
        let ghost waiting = waits(self.waiting@);
        let n: u64 = self.counter.feed(chunk);
        bytes::push_all(&mut self.kept, chunk);
        let most: usize = self.reach();
        let from: usize = if most >= self.kept.len() || chunk.len() >= self.kept.len() - most {
            0
        } else {
            self.kept.len() - most - chunk.len()
        };
        let shown = bytes::copied(self.kept.as_slice(), from, self.kept.len());
        assert(shown@ =~= recent(self.kept@, chunk@.len() as int, waiting));
        let mut typed: Vec<u8> = Vec::new();
        let mut left: Vec<Pending> = Vec::new();
        let mut i: usize = 0;
        assert(typed@ =~= seq![]);
        assert(waits(left@) =~= seq![]);
        while i < self.waiting.len()
            invariant
                i <= self.waiting@.len(),
                waiting == waits(self.waiting@),
                typed@ == typed_for(shown@, waiting, i as nat),
                waits(left@) == still_waiting(shown@, waiting, i as nat),
            decreases self.waiting@.len() - i,
        {
            assert(waiting[i as int] == (self.waiting@[i as int].prompt@, self.waiting@[i as int].keys@));
            if contains(shown.as_slice(), self.waiting[i].prompt.as_slice()) {
                bytes::push_all(&mut typed, self.waiting[i].keys.as_slice());
            } else {
                push_pending(&mut left, self.waiting[i].prompt.as_slice(), self.waiting[i].keys.as_slice());
            }
            i += 1;
        }
        self.waiting = left;
        Noticed { beat: n > 0, typed }
    }
}

/// A string holds a marker no more often than it has bytes.
proof fn counts_are_short(m: Seq<u8>, hay: Seq<u8>)
    ensures
        occurrences(m, hay) <= hay.len(),
{
    if m.len() > 0 {
        places_are_few(m, hay, 0);
    }
}

proof fn places_are_few(m: Seq<u8>, hay: Seq<u8>, i: int)
    requires
        m.len() > 0,
        0 <= i <= hay.len(),
    ensures
        bytes::places(hay, m, i).len() <= hay.len() - i,
    decreases hay.len() - i,
{
    if i < hay.len() {
        places_are_few(m, hay, i + 1);
    }
}

/// Why a guest is stuck, if it is: no first heartbeat in time, or none since the last.
pub open spec fn stuck_for(w: Watch, seen: u64, elapsed_ms: u64, last_beat_ms: u64) -> Option<Seq<char>> {
    let since = if elapsed_ms > last_beat_ms {
        elapsed_ms - last_beat_ms
    } else {
        0
    };
    if seen == 0 {
        if elapsed_ms / 1000 >= w.first_within {
            Some(
                "no heartbeat within "@ + text::decimal(w.first_within as int) + "s of starting the guest"@,
            )
        } else {
            None
        }
    } else if since >= w.every_within * 1000 {
        Some(
            "no heartbeat for "@ + text::decimal(w.every_within as int) + "s after heartbeat "@ + text::decimal(
                seen as int,
            ) + "; the guest is hung"@,
        )
    } else {
        None
    }
}

fn stuck(w: &Watch, seen: u64, elapsed_ms: u64, last_beat_ms: u64) -> (r: Option<String>)
    ensures
        text::opt(r) == stuck_for(*w, seen, elapsed_ms, last_beat_ms),
{
    if seen == 0 {
        if elapsed_ms / 1000 >= w.first_within {
            return Some(
                text::three(
                    "no heartbeat within ",
                    text::int_text(w.first_within as i128).as_str(),
                    "s of starting the guest",
                ),
            );
        }
        return None;
    }
    let since: u128 = if elapsed_ms > last_beat_ms {
        (elapsed_ms - last_beat_ms) as u128
    } else {
        0
    };
    if since >= w.every_within as u128 * 1000 {
        let mut e = text::three(
            "no heartbeat for ",
            text::int_text(w.every_within as i128).as_str(),
            "s after heartbeat ",
        );
        e.append(text::int_text(seen as i128).as_str());
        e.append("; the guest is hung");
        return Some(e);
    }
    None
}

/// What becomes of a guest that has not exited.
#[derive(Debug)]
pub enum Fate {
    /// It runs on.
    Runs,
    /// It is killed: its watch found it stuck.
    Hung(String),
    /// It is killed: its time is up.
    TimedOut,
}

/// What becomes of a guest that has not exited. The watch is asked first.
pub open spec fn fate_is(
    f: Fate,
    watch: Option<Watch>,
    timeout_secs: u64,
    seen: u64,
    elapsed_ms: u64,
    last_beat_ms: u64,
) -> bool {
    let why = match watch {
        Some(w) => stuck_for(w, seen, elapsed_ms, last_beat_ms),
        None => None,
    };
    match why {
        Some(e) => f matches Fate::Hung(h) && h@ == e,
        None => if elapsed_ms / 1000 >= timeout_secs {
            f is TimedOut
        } else {
            f is Runs
        },
    }
}

/// What becomes of a guest that has not exited, `elapsed_ms` after it was started: the heartbeats
/// seen, and when the last of them arrived.
pub fn fate(watch: &Option<Watch>, timeout_secs: u64, seen: u64, elapsed_ms: u64, last_beat_ms: u64) -> (r: Fate)
    ensures
        fate_is(r, *watch, timeout_secs, seen, elapsed_ms, last_beat_ms),
{
    if let Some(w) = watch {
        if let Some(e) = stuck(w, seen, elapsed_ms, last_beat_ms) {
            return Fate::Hung(e);
        }
    }
    if elapsed_ms / 1000 >= timeout_secs {
        Fate::TimedOut
    } else {
        Fate::Runs
    }
}

/// How a run ended.
#[derive(Debug)]
pub enum End {
    /// The guest exited by itself, with this code; without one, a signal ended it.
    Exited(Option<i32>),
    /// The guest was killed: its watch found it stuck.
    Hung(String),
    /// The guest was killed: its time was up.
    TimedOut,
}

/// Whether a look at a guest finds that its run ends, and how. `exit` is the guest's exit code once
/// it has exited; a guest that has not may have to be killed.
pub open spec fn ends_as(
    end: Option<End>,
    exit: Option<Option<i32>>,
    watch: Option<Watch>,
    timeout_secs: u64,
    seen: u64,
    elapsed_ms: u64,
    last_beat_ms: u64,
) -> bool {
    match (exit, end) {
        (Some(code), Some(e)) => e == End::Exited(code),
        (Some(_), None) => false,
        (None, None) => fate_is(Fate::Runs, watch, timeout_secs, seen, elapsed_ms, last_beat_ms),
        (None, Some(End::Exited(_))) => false,
        (None, Some(End::Hung(why))) => fate_is(
            Fate::Hung(why),
            watch,
            timeout_secs,
            seen,
            elapsed_ms,
            last_beat_ms,
        ),
        (None, Some(End::TimedOut)) => fate_is(Fate::TimedOut, watch, timeout_secs, seen, elapsed_ms, last_beat_ms),
    }
}

/// Look at a guest: whether its run ends here, and how. One that ends without having exited is to
/// be killed.
pub fn look(
    exit: Option<Option<i32>>,
    watch: &Option<Watch>,
    timeout_secs: u64,
    seen: u64,
    elapsed_ms: u64,
    last_beat_ms: u64,
) -> (r: Option<End>)
    ensures
        ends_as(r, exit, *watch, timeout_secs, seen, elapsed_ms, last_beat_ms),
{
    if let Some(code) = exit {
        return Some(End::Exited(code));
    }
    match fate(watch, timeout_secs, seen, elapsed_ms, last_beat_ms) {
        Fate::Runs => None,
        Fate::Hung(why) => Some(End::Hung(why)),
        Fate::TimedOut => Some(End::TimedOut),
    }
}

/// What a run came to, by how it ended. A guest passed if it exited by itself with its machine's
/// success code; what it printed has no part in that.
pub fn ended(success_code: i32, end: End, console: Vec<u8>) -> (r: Outcome)
    ensures
        match end {
            End::Exited(c) => r.code == c && !r.timed_out && r.hung is None,
            End::Hung(why) => r.code is None && !r.timed_out && r.hung == Some(why),
            End::TimedOut => r.code is None && r.timed_out && r.hung is None,
        },
        r.passed == (!r.timed_out && r.hung is None && r.code == Some(success_code)),
        r.console == console,
{
    match end {
        End::Exited(code) => {
            let passed = match code {
                Some(c) => c == success_code,
                None => false,
            };
            Outcome { code, passed, timed_out: false, console, hung: None }
        },
        End::Hung(why) => Outcome { code: None, passed: false, timed_out: false, console, hung: Some(why) },
        End::TimedOut => Outcome { code: None, passed: false, timed_out: true, console, hung: None },
    }
}

/// Only a guest with a watch is ever found stuck.
pub proof fn only_watched_guests_hang(
    f: Fate,
    watch: Option<Watch>,
    timeout_secs: u64,
    seen: u64,
    elapsed_ms: u64,
    last_beat_ms: u64,
)
    requires
        fate_is(f, watch, timeout_secs, seen, elapsed_ms, last_beat_ms),
        f is Hung,
    ensures
        watch is Some,
{
}

/// A run ends in one way: with the guest's own exit where it has exited, else by killing it, and as
/// stuck only under a watch.
pub proof fn runs_end_in_one_way(
    end: End,
    exit: Option<Option<i32>>,
    watch: Option<Watch>,
    timeout_secs: u64,
    seen: u64,
    elapsed_ms: u64,
    last_beat_ms: u64,
)
    requires
        ends_as(Some(end), exit, watch, timeout_secs, seen, elapsed_ms, last_beat_ms),
    ensures
        end is Exited <==> exit is Some,
        end is Exited ==> exit == Some(end->Exited_0),
        end is Hung ==> watch is Some,
        end is TimedOut ==> elapsed_ms / 1000 >= timeout_secs,
{
}

/// A guest whose heartbeats keep coming is never found stuck.
pub proof fn live_guests_are_not_stuck(w: Watch, seen: u64, elapsed_ms: u64, last_beat_ms: u64)
    requires
        seen > 0,
        last_beat_ms <= elapsed_ms,
        elapsed_ms - last_beat_ms < w.every_within * 1000,
    ensures
        stuck_for(w, seen, elapsed_ms, last_beat_ms) == None::<Seq<char>>,
{
}

} // verus!
