//! Cutting the power on a guest in the middle of writing its disk, again and again, and reading
//! what each cut left: where the cuts fall, and what a campaign comes to.

use vstd::prelude::*;
use vstd::string::*;

use crate::bytes;
use crate::diskcheck::Crashed;
use crate::kcfg::random;
use crate::kcfg::random::Rng;
use crate::text;

verus! {

/// What the kernel prints once it starts writing.
pub const MARKER: &'static str = "fscrash: writing";

/// The longest, in seconds, that a guest may take to reach the workload.
pub const START_WITHIN: u64 = 120;

/// The longest, in milliseconds, that the workload may write before it is cut off.
pub const MAX_WRITING_MS: u64 = 3000;

/// The next number of a campaign, which is a function of its seed.
pub fn next(state: &mut u64) -> (r: u64)
    ensures
        *final(state) == random::stepped(*old(state)),
        r == random::mixed(*final(state)),
{
    let mut rng = Rng::new(*state);
    let r: u64 = rng.next_u64();
    *state = rng.state;
    r
}

/// How long the next guest writes before it is cut off, in milliseconds.
pub fn next_delay(state: &mut u64) -> (r: u64)
    ensures
        *final(state) == random::stepped(*old(state)),
        r == random::mixed(*final(state)) % 3001,
        r <= MAX_WRITING_MS,
{
    next(state) % (MAX_WRITING_MS + 1)
}

/// The operation count that a line of the console gives: `fscrash: N ops`.
pub open spec fn ops_in(line: Seq<char>) -> Option<int> {
    let (front, back) = ("fscrash: "@, " ops"@);
    if bytes::begins(line, front) && bytes::ends(line.subrange(front.len() as int, line.len() as int), back) {
        let n = line.subrange(front.len() as int, line.len() - back.len());
        if n.len() > 0 && n[0] == '-' {
            None
        } else {
            text::number_within(n, 10, 0, u64::MAX as int)
        }
    } else {
        None
    }
}

/// The operation count that the first `n` lines gave last, or 0.
pub open spec fn last_ops(lines: Seq<Seq<char>>, n: nat) -> int
    decreases n,
{
    if n == 0 {
        0
    } else {
        match ops_in(lines[n - 1]) {
            Some(k) => k,
            None => last_ops(lines, (n - 1) as nat),
        }
    }
}

fn read_ops(line: &[char]) -> (r: Option<u64>)
    ensures
        match r {
            Some(n) => ops_in(line@) == Some(n as int),
            None => ops_in(line@) == None::<int>,
        },
{
    let front = text::chars("fscrash: ");
    let back = text::chars(" ops");
    if front.len() > line.len() || !text::same_chars(
        text::part(line, 0, front.len()).as_slice(),
        front.as_slice(),
    ) {
        return None;
    }
    let rest = text::part(line, front.len(), line.len());
    if back.len() > rest.len() || !text::same_chars(
        text::part(rest.as_slice(), rest.len() - back.len(), rest.len()).as_slice(),
        back.as_slice(),
    ) {
        return None;
    }
    let n = text::part(line, front.len(), line.len() - back.len());
    text::parse_u64(n.as_slice(), 10)
}

/// The operation count that the workload last printed.
pub fn ops_seen(console: &[u8]) -> (r: u64)
    ensures
        r == last_ops(text::lines(text::decoded(console@), 0), text::lines(text::decoded(console@), 0).len()),
{
    let shown = text::decode(console);
    let lines = text::split_lines(text::chars(shown.as_str()).as_slice());
    let ghost all = text::lines(text::decoded(console@), 0);
    let mut last: u64 = 0;
    let mut i: usize = 0;
    while i < lines.len()
        invariant
            i <= lines@.len(),
            text::char_views(lines@) == all,
            last == last_ops(all, i as nat),
        decreases lines@.len() - i,
    {
        assert(text::char_views(lines@)[i as int] == lines@[i as int]@);
        if let Some(n) = read_ops(lines[i].as_slice()) {
            last = n;
        }
        i += 1;
    }
    last
}

/// Whether a console shows that the workload has begun.
pub fn has_started(console: &[u8]) -> (r: bool)
    ensures
        r == (bytes::find(text::decoded(console@), MARKER@, 0) is Some),
{
    let shown = text::decode(console);
    text::find_text(text::chars(shown.as_str()).as_slice(), text::chars(MARKER).as_slice()).is_some()
}

/// What a cut left of the FAT32 volume beside the first one.
#[derive(Debug, Clone, Copy)]
pub struct Wide {
    pub lost: u32,
    pub fats_differ: u32,
    /// Files of the crash workload found there, and bytes of them checked.
    pub crash_files: usize,
    pub crash_bytes: usize,
}

/// The larger of two counts.
pub open spec fn most(a: u32, b: u32) -> u32 {
    if a > b {
        a
    } else {
        b
    }
}

fn larger(a: u32, b: u32) -> (r: u32)
    ensures
        r == most(a, b),
{
    if a > b {
        a
    } else {
        b
    }
}

/// What a campaign has come to so far.
#[derive(Debug)]
pub struct Tally {
    pub runs: u64,
    /// Cuts that left lost clusters, and the most that one did.
    pub lost_runs: u64,
    pub max_lost: u32,
    /// Cuts that left the tables apart.
    pub differ_runs: u64,
    /// Operations written, at least.
    pub total_ops: u64,
    /// Cuts that left an inconsistent volume, with what was wrong.
    pub failures: Vec<(u64, String)>,
}

/// What is reported of one cut.
pub open spec fn cut_head(run: int, delay: int, ops: int) -> Seq<char> {
    "  cut "@ + text::right_aligned(text::decimal(run), 3) + " after "@ + text::right_aligned(text::decimal(delay), 4)
        + " ms, "@ + text::right_aligned(text::decimal(ops), 5) + "+ ops: "@
}

fn head_text(run: u64, delay: u64, ops: u64) -> (r: String)
    ensures
        r@ == cut_head(run as int, delay as int, ops as int),
{
    let mut r = "  cut ".to_owned();
    r.append(text::right_align(text::int_text(run as i128).as_str(), 3).as_str());
    r.append(" after ");
    r.append(text::right_align(text::int_text(delay as i128).as_str(), 4).as_str());
    r.append(" ms, ");
    r.append(text::right_align(text::int_text(ops as i128).as_str(), 5).as_str());
    r.append("+ ops: ");
    r
}

impl Tally {
    pub fn new() -> (r: Tally)
        ensures
            r.runs == 0 && r.lost_runs == 0 && r.max_lost == 0 && r.differ_runs == 0 && r.total_ops == 0
                && r.failures@.len() == 0,
    {
        Tally { runs: 0, lost_runs: 0, max_lost: 0, differ_runs: 0, total_ops: 0, failures: Vec::new() }
    }

    /// Count a cut that left consistent volumes, and say what it left.
    pub fn consistent(&mut self, delay: u64, ops: u64, c: &Crashed, w: &Wide) -> (r: String)
        requires
            old(self).runs < u64::MAX,
            old(self).lost_runs <= old(self).runs,
            old(self).differ_runs <= old(self).runs,
            old(self).total_ops + ops <= u64::MAX,
        ensures
            final(self).runs == old(self).runs + 1,
            final(self).lost_runs == old(self).lost_runs + if c.lost != 0 || w.lost != 0 {
                1int
            } else {
                0
            },
            final(self).max_lost == most(old(self).max_lost, most(c.lost, w.lost)),
            final(self).differ_runs == old(self).differ_runs + if c.fats_differ != 0 || w.fats_differ != 0 {
                1int
            } else {
                0
            },
            final(self).total_ops == old(self).total_ops + ops,
            final(self).failures@ == old(self).failures@,
            r@ == cut_head(final(self).runs as int, delay as int, ops as int) + "consistent; "@ + text::decimal(
                c.files as int,
            ) + " files, "@ + text::decimal(c.lost as int) + " lost clusters, tables differ in "@ + text::decimal(
                c.fats_differ as int,
            ) + "; "@ + text::decimal(c.crash_files as int) + " workload files, "@ + text::decimal(c.crash_bytes as int)
                + " bytes checked; FAT32: "@ + text::decimal(w.lost as int) + " lost, tables differ in "@
                + text::decimal(w.fats_differ as int) + ", "@ + text::decimal(w.crash_files as int) + " files, "@
                + text::decimal(w.crash_bytes as int) + " bytes"@,
    {
        self.runs = self.runs + 1;
        if c.lost != 0 || w.lost != 0 {
            self.lost_runs = self.lost_runs + 1;
        }
        self.max_lost = larger(self.max_lost, larger(c.lost, w.lost));
        if c.fats_differ != 0 || w.fats_differ != 0 {
            self.differ_runs = self.differ_runs + 1;
        }
        self.total_ops = self.total_ops + ops;
        let mut r = head_text(self.runs, delay, ops);
        r.append("consistent; ");
        r.append(text::int_text(c.files as i128).as_str());
        r.append(" files, ");
        r.append(text::int_text(c.lost as i128).as_str());
        r.append(" lost clusters, tables differ in ");
        r.append(text::int_text(c.fats_differ as i128).as_str());
        r.append("; ");
        r.append(text::int_text(c.crash_files as i128).as_str());
        r.append(" workload files, ");
        r.append(text::int_text(c.crash_bytes as i128).as_str());
        r.append(" bytes checked; FAT32: ");
        r.append(text::int_text(w.lost as i128).as_str());
        r.append(" lost, tables differ in ");
        r.append(text::int_text(w.fats_differ as i128).as_str());
        r.append(", ");
        r.append(text::int_text(w.crash_files as i128).as_str());
        r.append(" files, ");
        r.append(text::int_text(w.crash_bytes as i128).as_str());
        r.append(" bytes");
        r
    }

    /// Count a cut that left an inconsistent volume, and say so.
    pub fn inconsistent(&mut self, delay: u64, ops: u64, why: &str) -> (r: String)
        requires
            old(self).runs < u64::MAX,
            old(self).total_ops + ops <= u64::MAX,
        ensures
            final(self).runs == old(self).runs + 1,
            final(self).lost_runs == old(self).lost_runs,
            final(self).max_lost == old(self).max_lost,
            final(self).differ_runs == old(self).differ_runs,
            final(self).total_ops == old(self).total_ops + ops,
            final(self).failures@.len() == old(self).failures@.len() + 1,
            final(self).failures@.drop_last() == old(self).failures@,
            final(self).failures@.last().0 == final(self).runs,
            final(self).failures@.last().1@ == why@,
            r@ == cut_head(final(self).runs as int, delay as int, ops as int)
                + "\u{1b}[31mINCONSISTENT\u{1b}[0m: "@ + why@,
    {
        self.runs = self.runs + 1;
        self.total_ops = self.total_ops + ops;
        self.failures.push((self.runs, why.to_owned()));
        assert(self.failures@.drop_last() =~= old(self).failures@);
        let mut r = head_text(self.runs, delay, ops);
        r.append("\u{1b}[31mINCONSISTENT\u{1b}[0m: ");
        r.append(why);
        r
    }

    /// What the campaign comes to, in a line.
    pub fn summary(&self) -> (r: String)
        ensures
            r@ == text::decimal(self.runs as int) + " cuts, "@ + text::decimal(self.failures@.len() as int)
                + " inconsistent; "@ + text::decimal(self.lost_runs as int) + " left lost clusters (at most "@
                + text::decimal(self.max_lost as int) + "), "@ + text::decimal(self.differ_runs as int)
                + " left the tables apart; at least "@ + text::decimal(self.total_ops as int) + " operations written"@,
    {
        let mut r = text::int_text(self.runs as i128);
        r.append(" cuts, ");
        r.append(text::int_text(self.failures.len() as i128).as_str());
        r.append(" inconsistent; ");
        r.append(text::int_text(self.lost_runs as i128).as_str());
        r.append(" left lost clusters (at most ");
        r.append(text::int_text(self.max_lost as i128).as_str());
        r.append("), ");
        r.append(text::int_text(self.differ_runs as i128).as_str());
        r.append(" left the tables apart; at least ");
        r.append(text::int_text(self.total_ops as i128).as_str());
        r.append(" operations written");
        r
    }

    /// Whether every cut left a consistent volume; if not, how many did not, and the first.
    pub fn verdict(&self) -> (r: Result<(), String>)
        ensures
            match r {
                Ok(_) => self.failures@.len() == 0,
                Err(e) => self.failures@.len() > 0 && e@ == text::decimal(self.failures@.len() as int) + " of "@
                    + text::decimal(self.runs as int) + " cuts left an inconsistent volume; the first, cut "@
                    + text::decimal(self.failures@[0].0 as int) + ": "@ + self.failures@[0].1@,
            },
    {
        if self.failures.len() == 0 {
            return Ok(());
        }
        let mut e = text::int_text(self.failures.len() as i128);
        e.append(" of ");
        e.append(text::int_text(self.runs as i128).as_str());
        e.append(" cuts left an inconsistent volume; the first, cut ");
        e.append(text::int_text(self.failures[0].0 as i128).as_str());
        e.append(": ");
        e.append(self.failures[0].1.as_str());
        Err(e)
    }
}

/// What is said of a guest that did not write as it should: it never began, or it stopped by
/// itself.
pub fn judge_guest(started: bool, exited_early: bool, console: &[u8]) -> (r: Result<(), String>)
    ensures
        match r {
            Ok(_) => started && !exited_early,
            Err(e) => if !started {
                e@ == "the guest never started its crash workload (no `fscrash: writing` within 120s); its console:\n"@
                    + text::decoded(console@)
            } else {
                exited_early && e@
                    == "the guest stopped by itself while it should have been writing; its console:\n"@ + text::decoded(
                    console@,
                )
            },
        },
{
    if !started {
        let mut e =
            "the guest never started its crash workload (no `fscrash: writing` within 120s); its console:\n".to_owned();
        e.append(text::decode(console).as_str());
        return Err(e);
    }
    if exited_early {
        let mut e = "the guest stopped by itself while it should have been writing; its console:\n".to_owned();
        e.append(text::decode(console).as_str());
        return Err(e);
    }
    Ok(())
}

} // verus!
