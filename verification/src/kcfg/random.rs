//! Generated configurations: random ones, and the two boundaries.
//!
//! The configuration space is too large to build exhaustively, so it is sampled. Every
//! generated configuration must be *valid*: a sample that the resolver would refuse tests
//! nothing, and a sampler that produces them trains everyone to ignore its failures.
//!
//! Validity is guaranteed by construction rather than by hoping. Settable symbols are
//! visited in declaration order, a value is proposed for each, and the proposal is kept
//! only if the whole set of requests so far still resolves. Resolution validates every
//! request each time, so a proposal that would contradict an earlier one — setting off
//! a symbol that an accepted request selects, say — is dropped, and the set only ever
//! grows by valid steps. A second pass revisits symbols that were unavailable the first
//! time, because a dependency declared later may have been switched on since.
//!
//! The same table, base requests and seed always produce the same configuration: the
//! visit order is declaration order and the generator is a fixed algorithm (splitmix64),
//! so a failing seed reproduces anywhere.

use vstd::arithmetic::div_mod::*;
use vstd::arithmetic::mul::*;
use vstd::prelude::*;
use vstd::string::*;

use super::expr::Tri;
use super::resolve;
use super::resolve::{Reason, Request, ResolveError};
use super::{Kind, Resolution, SymbolTable, Val, MODULES};
use crate::text;

verus! {

/// What to generate.
#[derive(Debug, Clone, Copy, PartialEq, Eq, Structural)]
pub enum Mode {
    /// Every settable bool and tristate a coin flip, choices a random usable member, and
    /// each ranged `int` or `hex` biased towards its bounds.
    Random(u64),
    /// Everything on that can be on.
    AllYes,
    /// Everything off that can be off.
    AllNo,
}

/// The options that produce a mode.
pub open spec fn mode_source(m: Mode) -> Seq<char> {
    match m {
        Mode::Random(seed) => "--random --seed "@ + text::decimal(seed as int),
        Mode::AllYes => "--allyes"@,
        Mode::AllNo => "--allno"@,
    }
}

impl Mode {
    /// The options that produce this mode, which is also how its requests are attributed.
    pub fn source(self) -> (r: String)
        ensures
            r@ == mode_source(self),
    {
        match self {
            Mode::Random(seed) => {
                let mut r = "--random --seed ".to_owned();
                r.append(text::int_text(seed as i128).as_str());
                r
            },
            Mode::AllYes => "--allyes".to_owned(),
            Mode::AllNo => "--allno".to_owned(),
        }
    }
}

/// splitmix64: tiny, fast, and the same sequence on every host.
pub struct Rng {
    pub state: u64,
}

/// What the state grows by with every number.
pub const GAMMA: u64 = 0x9e37_79b9_7f4a_7c15;

/// The state after one number more.
pub open spec fn stepped(s: u64) -> u64 {
    ((s + GAMMA) % 0x1_0000_0000_0000_0000) as u64
}

/// The product of two 64-bit numbers, its low 64 bits.
pub open spec fn times(a: u64, b: u64) -> u64 {
    ((a * b) % 0x1_0000_0000_0000_0000) as u64
}

/// The number a state gives.
pub open spec fn mixed(s: u64) -> u64 {
    let a = times(s ^ (s >> 30), 0xbf58_476d_1ce4_e5b9);
    let b = times(a ^ (a >> 27), 0x94d0_49bb_1331_11eb);
    b ^ (b >> 31)
}

/// How many states lie between `s` and the state 0: each step goes one closer, and only
/// from 0 is it a whole round.
pub open spec fn steps_left(s: u64) -> int {
    if s == 0 {
        0x1_0000_0000_0000_0000
    } else {
        (s * 0x0e21_7c1e_66c8_8cc3) % 0x1_0000_0000_0000_0000
    }
}

/// A step that does not reach the state 0 comes closer to it, so every run of numbers ends there.
pub proof fn step_goes_closer(s: u64)
    ensures
        stepped(s) != 0 ==> 0 <= steps_left(stepped(s)) < steps_left(s),
{
    let m: int = 0x1_0000_0000_0000_0000;
    let n: int = 0x0e21_7c1e_66c8_8cc3;
    let g: int = GAMMA as int;
    let s1 = (s + g) % m;
    // s1 * n is s * n + g * n, and g * n is one less than a multiple of m.
    assert((g * n) % m == m - 1) by (nonlinear_arith)
        requires
            g == 0x9e37_79b9_7f4a_7c15,
            n == 0x0e21_7c1e_66c8_8cc3,
            m == 0x1_0000_0000_0000_0000,
    ;
    lemma_mul_mod_noop_left(s + g, n, m);
    assert((s1 * n) % m == ((s + g) * n) % m);
    assert((s + g) * n == s * n + g * n) by (nonlinear_arith);
    lemma_add_mod_noop(s * n, g * n, m);
    let d = (s * n) % m;
    assert(0 <= d < m) by {
        lemma_mod_bound(s * n, m);
    }
    assert((s1 * n) % m == (d + (m - 1)) % m);
    if d > 0 {
        lemma_mod_multiples_vanish(1, d - 1, m);
        lemma_small_mod((d - 1) as nat, m as nat);
        assert((s1 * n) % m == d - 1);
    } else {
        lemma_small_mod((m - 1) as nat, m as nat);
        assert((s1 * n) % m == m - 1);
        if s != 0 {
            // Only 0 has no steps left: multiplying back by -g gives s itself.
            lemma_mul_mod_noop_left(s * n, g, m);
            assert((s * n) * g == s * (g * n)) by (nonlinear_arith);
            lemma_mul_mod_noop_right(s as int, g * n, m);
            assert(s * (m - 1) == (s - 1) * m + (m - s)) by (nonlinear_arith);
            lemma_mod_multiples_vanish(s - 1, m - s, m);
            lemma_small_mod((m - s) as nat, m as nat);
            assert(0 * g == 0);
            assert(0int % m == 0);
            assert(false);
        }
    }
}

proof fn zero_gives_zero()
    ensures
        mixed(0) == 0,
{
    assert(0u64 ^ (0u64 >> 30) == 0) by (bit_vector);
    assert(0u64 ^ (0u64 >> 27) == 0) by (bit_vector);
    assert(0u64 ^ (0u64 >> 31) == 0) by (bit_vector);
}

/// The largest multiple of `n` that is no more than the largest 64-bit number: numbers
/// from there on would favour small remainders.
pub open spec fn fair(n: u64) -> int {
    u64::MAX - u64::MAX % n
}

/// A number below `n` drawn from state `s`, and the state after it: the first number
/// that is fair, taken modulo `n`.
pub open spec fn drawn(s: u64, n: u64) -> (u64, u64)
    decreases steps_left(s),
{
    let s1 = stepped(s);
    if n == 0 {
        (0, s)
    } else if mixed(s1) < fair(n) || s1 == 0 {
        ((mixed(s1) % n) as u64, s1)
    } else {
        proof {
            step_goes_closer(s);
        }
        drawn(s1, n)
    }
}

/// A number from `lo` to `hi` drawn from state `s`, and the state after it.
pub open spec fn drawn_between(s: u64, lo: int, hi: int) -> (int, u64) {
    let span = hi - lo + 1;
    if span > u64::MAX {
        (lo + mixed(stepped(s)), stepped(s))
    } else {
        (lo + drawn(s, span as u64).0, drawn(s, span as u64).1)
    }
}

pub(crate) proof fn drawn_is_below(s: u64, n: u64)
    requires
        n > 0,
    ensures
        drawn(s, n).0 < n,
    decreases steps_left(s),
{
    let s1 = stepped(s);
    if mixed(s1) < fair(n) || s1 == 0 {
    } else {
        step_goes_closer(s);
        drawn_is_below(s1, n);
    }
}

impl Rng {
    pub fn new(seed: u64) -> (r: Rng)
        ensures
            r.state == seed,
    {
        Rng { state: seed }
    }

    pub fn next_u64(&mut self) -> (r: u64)
        ensures
            final(self).state == stepped(old(self).state),
            r == mixed(final(self).state),
    {
        self.state = self.state.wrapping_add(GAMMA);
        let z0: u64 = self.state;
        let z1: u64 = (z0 ^ (z0 >> 30)).wrapping_mul(0xbf58_476d_1ce4_e5b9);
        let z2: u64 = (z1 ^ (z1 >> 27)).wrapping_mul(0x94d0_49bb_1331_11eb);
        z2 ^ (z2 >> 31)
    }

    /// Uniform in `0..n`. `n` must be non-zero.
    pub fn below(&mut self, n: u64) -> (r: u64)
        requires
            n > 0,
        ensures
            (r, final(self).state) == drawn(old(self).state, n),
            r < n,
    {
        // Rejection sampling, so small `n` has no modulo bias.
        let zone: u64 = u64::MAX - u64::MAX % n;
        proof {
            drawn_is_below(self.state, n);
        }
        loop
            invariant
                n > 0,
                zone == fair(n),
                zone > 0,
                drawn(self.state, n) == drawn(old(self).state, n),
                drawn(old(self).state, n).0 < n,
            decreases steps_left(self.state),
        {
            proof {
                step_goes_closer(self.state);
                zero_gives_zero();
            }
            let v: u64 = self.next_u64();
            if v < zone {
                return v % n;
            }
        }
    }

    /// Uniform in `lo..=hi`.
    pub fn between(&mut self, lo: i128, hi: i128) -> (r: i128)
        requires
            lo <= hi,
            hi - lo < i128::MAX,
        ensures
            (r as int, final(self).state) == drawn_between(old(self).state, lo as int, hi as int),
            lo <= r <= hi,
    {
        let span: i128 = hi - lo + 1;
        if span > u64::MAX as i128 {
            return lo + self.next_u64() as i128;
        }
        lo + self.below(span as u64) as i128
    }
}

/// A configuration in the making: what it is so far, the requests that make it so, the
/// generator's state, and the choices this pass has visited.
pub struct Draft {
    pub o: resolve::Outcome,
    pub asked: Seq<resolve::Ask>,
    pub rng: u64,
    pub seen: Seq<Seq<char>>,
}

/// Whether some request names the symbol called `name`.
pub open spec fn fixed(asked: Seq<resolve::Ask>, name: Seq<char>) -> bool {
    exists|k: int| 0 <= k < asked.len() && (#[trigger] asked[k]).symbol == name
}

/// Whether some request names one of `names`.
pub open spec fn any_fixed(asked: Seq<resolve::Ask>, names: Seq<Seq<char>>) -> bool {
    exists|m: int| 0 <= m < names.len() && fixed(asked, #[trigger] names[m])
}

/// Those of the first `k` members that a person could pick now.
pub open spec fn pickable(t: super::Table, o: resolve::Outcome, members: Seq<Seq<char>>, k: nat) -> Seq<Seq<char>>
    decreases k,
{
    if k == 0 {
        seq![]
    } else {
        let before = pickable(t, o, members, (k - 1) as nat);
        let i = resolve::place_of(t, members[k - 1]);
        if super::can_set(t.symbols[i]) && !(o.causes[i] is DependsUnmet) {
            before.push(members[k - 1])
        } else {
            before
        }
    }
}

/// The member a random pick takes, if one is left to take, and the generator's state then.
pub open spec fn member_proposed(t: super::Table, d: Draft, g: super::Group) -> (Option<Seq<char>>, u64) {
    let us = pickable(t, d.o, g.members, g.members.len());
    if us.len() == 0 {
        (None, d.rng)
    } else {
        let pick = us[drawn(d.rng, us.len() as u64).0 as int];
        let s = drawn(d.rng, us.len() as u64).1;
        if super::truth(d.o.vals[resolve::place_of(t, pick)]) != Tri::N {
            (None, s)
        } else {
            (Some(pick), s)
        }
    }
}

/// The value proposed for the symbol at `i`, if one is, and the generator's state then.
pub open spec fn value_proposed(t: super::Table, mode: Mode, d: Draft, i: int) -> (Option<super::Value>, u64) {
    let s = t.symbols[i];
    match mode {
        Mode::AllYes => match s.kind {
            Kind::Bool => (Some(super::Value::Tri(Tri::Y)), d.rng),
            Kind::Tristate => (Some(super::Value::Tri(Tri::Y)), d.rng),
            _ => (None, d.rng),
        },
        Mode::AllNo => match s.kind {
            Kind::Bool => (Some(super::Value::Tri(Tri::N)), d.rng),
            Kind::Tristate => (Some(super::Value::Tri(Tri::N)), d.rng),
            _ => (None, d.rng),
        },
        Mode::Random(_) => match s.kind {
            Kind::Bool => (
                Some(
                    super::Value::Tri(
                        if drawn(d.rng, 2).0 == 0 {
                            Tri::N
                        } else {
                            Tri::Y
                        },
                    ),
                ),
                drawn(d.rng, 2).1,
            ),
            Kind::Tristate => {
                // `m` only where it can resolve.
                let n: u64 = if resolve::tri_in(d.o.names, d.o.vals, MODULES@) == Tri::Y {
                    3
                } else {
                    2
                };
                let v = drawn(d.rng, n);
                (
                    Some(
                        super::Value::Tri(
                            if v.0 == 0 {
                                Tri::N
                            } else if v.0 == 1 {
                                Tri::Y
                            } else {
                                Tri::M
                            },
                        ),
                    ),
                    v.1,
                )
            },
            Kind::Str => (None, d.rng),
            _ => match resolve::active_span(s.ranges, d.o, 0) {
                None => (None, d.rng),
                Some(r) => {
                    // Bounds are where off-by-one bugs live, so they get half the samples;
                    // the default keeps a quarter so a sample is not all extremes.
                    let q = drawn(d.rng, 4);
                    if q.0 == 0 {
                        (Some(number(s.kind, r.lo)), q.1)
                    } else if q.0 == 1 {
                        (Some(number(s.kind, r.hi)), q.1)
                    } else if q.0 == 2 {
                        (None, q.1)
                    } else {
                        let v = drawn_between(q.1, r.lo, r.hi);
                        (Some(number(s.kind, v.0)), v.1)
                    }
                },
            },
        },
    }
}

/// A number as a value of kind `k`.
pub open spec fn number(k: Kind, v: int) -> super::Value {
    match k {
        Kind::Int => super::Value::Int((v as i64) as int),
        _ => super::Value::Hex((v as u64) as int),
    }
}

/// The request a visit to the symbol at `i` proposes, if it does, and the draft then.
pub open spec fn proposed(t: super::Table, mode: Mode, d: Draft, i: int) -> (Option<resolve::Ask>, Draft) {
    let s = t.symbols[i];
    if fixed(d.asked, s.name) {
        (None, d)
    } else if s.choice is Some {
        let g = t.choices[super::group_from(t.choices, s.choice->0, 0)->0];
        let d2 = Draft { seen: d.seen.push(s.choice->0), ..d };
        if d.seen.contains(s.choice->0) {
            (None, d)
        } else if any_fixed(d.asked, g.members) {
            (None, d2)
        } else {
            match mode {
                Mode::Random(_) => {
                    let p = member_proposed(t, d2, g);
                    let d3 = Draft { rng: p.1, ..d2 };
                    match p.0 {
                        Some(m) => (
                            Some(resolve::Ask { symbol: m, text: super::expr::tri_text(Tri::Y), source: mode_source(mode) }),
                            d3,
                        ),
                        None => (None, d3),
                    }
                },
                // The boundaries leave choices at their defaults: neither "on" nor "off"
                // says which member, and the default is the one the author expects.
                _ => (None, d2),
            }
        }
    } else if !super::can_set(s) || d.o.causes[i] is DependsUnmet {
        (None, d)
    } else {
        let p = value_proposed(t, mode, d, i);
        let d2 = Draft { rng: p.1, ..d };
        match p.0 {
            Some(v) => if d.o.vals[i] == v {
                (None, d2)
            } else {
                (
                    Some(resolve::Ask { symbol: s.name, text: super::written(v), source: mode_source(mode) }),
                    d2,
                )
            },
            None => (None, d2),
        }
    }
}

/// The draft after a visit to the symbol at `i`: the proposal is kept only if everything
/// asked so far still resolves with it.
pub open spec fn visited(t: super::Table, mode: Mode, d: Draft, i: int) -> Draft {
    let p = proposed(t, mode, d, i);
    match p.0 {
        None => p.1,
        Some(a) => match resolve::resolved(t, p.1.asked.push(a)) {
            Ok(o) => Draft { o, asked: p.1.asked.push(a), ..p.1 },
            Err(_) => p.1,
        },
    }
}

/// The draft after the symbols from `i` on have been visited.
pub open spec fn swept(t: super::Table, mode: Mode, d: Draft, i: int) -> Draft
    decreases t.symbols.len() - i,
{
    if i < 0 || i >= t.symbols.len() {
        d
    } else {
        swept(t, mode, visited(t, mode, d, i), i + 1)
    }
}

/// The seed a mode starts from.
pub open spec fn seed_of(m: Mode) -> u64 {
    match m {
        Mode::Random(s) => s,
        _ => 0,
    }
}

/// What `base` is extended to by `mode`: the configuration and everything asked for, or
/// what is wrong with `base` itself.
pub open spec fn generated(t: super::Table, base: Seq<resolve::Ask>, mode: Mode) -> Result<
    (resolve::Outcome, Seq<resolve::Ask>),
    Seq<resolve::Fault>,
> {
    match resolve::resolved(t, base) {
        Err(e) => Err(e),
        Ok(o) => {
            let first = swept(t, mode, Draft { o, asked: base, rng: seed_of(mode), seen: seq![] }, 0);
            let second = swept(t, mode, Draft { seen: seq![], ..first }, 0);
            Ok((second.o, second.asked))
        },
    }
}

/// A draft that a visit may start from: what it holds is what its requests resolve to.
pub open spec fn valid(t: super::Table, d: Draft) -> bool {
    resolve::resolved(t, d.asked) == Ok::<resolve::Outcome, Seq<resolve::Fault>>(d.o)
}

proof fn pickable_are_settable(t: super::Table, o: resolve::Outcome, members: Seq<Seq<char>>, k: nat)
    requires
        k <= members.len(),
    ensures
        pickable(t, o, members, k).len() <= k,
        forall|i: int|
            0 <= i < pickable(t, o, members, k).len() ==> members.contains(#[trigger] pickable(t, o, members, k)[i])
                && super::can_set(t.symbols[resolve::place_of(t, pickable(t, o, members, k)[i])]),
    decreases k,
{
    if k > 0 {
        pickable_are_settable(t, o, members, (k - 1) as nat);
        assert(members[k - 1] == members[k - 1]);
    }
}

/// Whether every request from `n` on is one that `mode` makes of a symbol a person can set, and of
/// which nothing was asked before.
pub open spec fn added_by(t: super::Table, asked: Seq<resolve::Ask>, n: nat, mode: Mode) -> bool {
    &&& forall|j: int, k: int|
        0 <= j < k < asked.len() && n <= k ==> (#[trigger] asked[j]).symbol != (#[trigger] asked[k]).symbol
    &&& forall|k: int|
        n <= k < asked.len() ==> (#[trigger] asked[k]).source == mode_source(mode) && super::sym_from(
            t.symbols,
            asked[k].symbol,
            0,
        ) is Some && super::can_set(t.symbols[resolve::place_of(t, asked[k].symbol)])
}

proof fn name_stands_at(t: super::Table, i: int, j: int)
    requires
        super::well_formed(t),
        0 <= j <= i < t.symbols.len(),
    ensures
        super::sym_from(t.symbols, t.symbols[i].name, j) == Some(i),
    decreases i - j,
{
    if j < i {
        assert(t.symbols[j].name != t.symbols[i].name);
        name_stands_at(t, i, j + 1);
    }
}

proof fn choice_stands(t: super::Table, i: int)
    requires
        super::well_formed(t),
        0 <= i < t.symbols.len(),
        t.symbols[i].choice is Some,
    ensures
        super::group_from(t.choices, t.symbols[i].choice->0, 0) is Some,
        0 <= super::group_from(t.choices, t.symbols[i].choice->0, 0)->0 < t.choices.len(),
        resolve::members_exist(t, t.choices[super::group_from(t.choices, t.symbols[i].choice->0, 0)->0]),
{
    assert(super::sym_sound(t, t.symbols[i]));
    group_bounds(t.choices, t.symbols[i].choice->0, 0);
    let c = super::group_from(t.choices, t.symbols[i].choice->0, 0)->0;
    assert forall|m: int| 0 <= m < t.choices[c].members.len() implies super::sym_from(
        t.symbols,
        #[trigger] t.choices[c].members[m],
        0,
    ) is Some by {
        assert(super::belongs(t, t.choices[c].members[m], t.choices[c].name));
    }
}

proof fn group_bounds(a: Seq<super::Group>, name: Seq<char>, i: int)
    requires
        super::group_from(a, name, i) is Some,
    ensures
        0 <= super::group_from(a, name, i)->0 < a.len(),
    decreases a.len() - i,
{
    if a[i].name != name {
        group_bounds(a, name, i + 1);
    }
}

proof fn visit_keeps(t: super::Table, mode: Mode, d: Draft, i: int, base: Seq<resolve::Ask>)
    requires
        super::well_formed(t),
        choices_fit(t),
        0 <= i < t.symbols.len(),
        valid(t, d),
        base.len() <= d.asked.len(),
        d.asked.subrange(0, base.len() as int) == base,
        added_by(t, d.asked, base.len(), mode),
    ensures
        valid(t, visited(t, mode, d, i)),
        base.len() <= visited(t, mode, d, i).asked.len(),
        visited(t, mode, d, i).asked.subrange(0, base.len() as int) == base,
        added_by(t, visited(t, mode, d, i).asked, base.len(), mode),
{
    let p = proposed(t, mode, d, i);
    if p.0 is Some {
        let a = p.0->0;
        let s = t.symbols[i];
        name_stands_at(t, i, 0);
        if s.choice is Some {
            choice_stands(t, i);
            let g = t.choices[super::group_from(t.choices, s.choice->0, 0)->0];
            pickable_are_settable(t, d.o, g.members, g.members.len());
            picks_are_members(t, d, g, a.symbol);
        }
        assert(!fixed(d.asked, a.symbol));
        let next = p.1.asked.push(a);
        assert forall|j: int, k: int| 0 <= j < k < next.len() && base.len() <= k implies (#[trigger] next[j]).symbol != (
        #[trigger] next[k]).symbol by {
            assert(next[j] == d.asked[j]);
            if k < d.asked.len() {
                assert(next[k] == d.asked[k]);
            }
        }
        assert(next.subrange(0, base.len() as int) =~= d.asked.subrange(0, base.len() as int));
    }
}

proof fn picks_are_members(t: super::Table, d: Draft, g: super::Group, pick: Seq<char>)
    requires
        resolve::members_exist(t, g),
        member_proposed(t, d, g).0 == Some(pick),
        pickable(t, d.o, g.members, g.members.len()).len() <= u64::MAX,
    ensures
        g.members.contains(pick),
        super::sym_from(t.symbols, pick, 0) is Some,
        super::can_set(t.symbols[resolve::place_of(t, pick)]),
{
    let us = pickable(t, d.o, g.members, g.members.len());
    pickable_are_settable(t, d.o, g.members, g.members.len());
    drawn_is_below(d.rng, us.len() as u64);
    let k = drawn(d.rng, us.len() as u64).0 as int;
    assert(us[k] == pick);
    assert(g.members.contains(us[k]));
}

proof fn sweep_keeps(t: super::Table, mode: Mode, d: Draft, i: int, base: Seq<resolve::Ask>)
    requires
        super::well_formed(t),
        choices_fit(t),
        0 <= i,
        valid(t, d),
        base.len() <= d.asked.len(),
        d.asked.subrange(0, base.len() as int) == base,
        added_by(t, d.asked, base.len(), mode),
    ensures
        valid(t, swept(t, mode, d, i)),
        base.len() <= swept(t, mode, d, i).asked.len(),
        swept(t, mode, d, i).asked.subrange(0, base.len() as int) == base,
        added_by(t, swept(t, mode, d, i).asked, base.len(), mode),
    decreases t.symbols.len() - i,
{
    if i < t.symbols.len() {
        visit_keeps(t, mode, d, i, base);
        sweep_keeps(t, mode, visited(t, mode, d, i), i + 1, base);
    }
}

/// Whether no choice has more members than 64 bits count.
pub open spec fn choices_fit(t: super::Table) -> bool {
    forall|c: int| 0 <= c < t.choices.len() ==> (#[trigger] t.choices[c]).members.len() <= u64::MAX
}

/// Every generated configuration is valid by construction: it is what its requests resolve
/// to. The base requests come first and unchanged, and are never contradicted: what follows asks, in
/// the name of the mode, only for symbols that a person could have set and of which nothing was
/// asked before.
pub proof fn generated_configurations_are_valid(t: super::Table, base: Seq<resolve::Ask>, mode: Mode)
    requires
        super::well_formed(t),
        choices_fit(t),
        generated(t, base, mode) is Ok,
    ensures
        ({
            let (o, asked) = generated(t, base, mode)->Ok_0;
            &&& resolve::resolved(t, asked) == Ok::<resolve::Outcome, Seq<resolve::Fault>>(o)
            &&& base.len() <= asked.len()
            &&& asked.subrange(0, base.len() as int) == base
            &&& added_by(t, asked, base.len(), mode)
        }),
{
    let o = resolve::resolved(t, base)->Ok_0;
    let d = Draft { o, asked: base, rng: seed_of(mode), seen: seq![] };
    assert(base.subrange(0, base.len() as int) =~= base);
    sweep_keeps(t, mode, d, 0, base);
    let first = swept(t, mode, d, 0);
    sweep_keeps(t, mode, Draft { seen: seq![], ..first }, 0, base);
}

/// Only a base that does not resolve stops a configuration from being generated.
pub proof fn generation_fails_only_with_its_base(t: super::Table, base: Seq<resolve::Ask>, mode: Mode)
    ensures
        generated(t, base, mode) is Err <==> resolve::resolved(t, base) is Err,
{
}

fn is_fixed(requests: &Vec<Request>, name: &String) -> (r: bool)
    ensures
        r == fixed(resolve::asks(requests@), name@),
{
    let mut k: usize = 0;
    while k < requests.len()
        invariant
            k <= requests@.len(),
            forall|j: int| 0 <= j < k ==> (#[trigger] resolve::asks(requests@)[j]).symbol != name@,
        decreases requests@.len() - k,
    {
        assert(resolve::asks(requests@)[k as int] == requests@[k as int]@);
        if requests[k].symbol == *name {
            return true;
        }
        k += 1;
    }
    false
}

fn any_is_fixed(requests: &Vec<Request>, names: &Vec<String>) -> (r: bool)
    ensures
        r == any_fixed(resolve::asks(requests@), text::views(names@)),
{
    let ghost asked = resolve::asks(requests@);
    let ghost v = text::views(names@);
    let mut m: usize = 0;
    while m < names.len()
        invariant
            m <= names@.len(),
            asked == resolve::asks(requests@),
            v == text::views(names@),
            forall|j: int| 0 <= j < m ==> !fixed(asked, #[trigger] v[j]),
        decreases names@.len() - m,
    {
        assert(v[m as int] == names@[m as int]@);
        if is_fixed(requests, &names[m]) {
            return true;
        }
        m += 1;
    }
    false
}

struct Working {
    res: Resolution,
    requests: Vec<Request>,
    rng: Rng,
    seen: Vec<String>,
}

spec fn draft(w: Working) -> Draft {
    Draft { o: w.res@, asked: resolve::asks(w.requests@), rng: w.rng.state, seen: text::views(w.seen@) }
}

fn find_pickable(table: &SymbolTable, c: usize, res: &Resolution) -> (r: Vec<String>)
    requires
        c < table.choices@.len(),
        resolve::fits(table@, res@),
        resolve::members_exist(table@, table@.choices[c as int]),
    ensures
        text::views(r@) == pickable(
            table@,
            res@,
            table@.choices[c as int].members,
            table@.choices[c as int].members.len(),
        ),
{
    let choice = &table.choices[c];
    assert(table@.choices[c as int] == choice@);
    let mut r: Vec<String> = Vec::new();
    let mut k: usize = 0;
    assert(text::views(r@) =~= seq![]);
    while k < choice.members.len()
        invariant
            k <= choice.members@.len(),
            resolve::fits(table@, res@),
            resolve::members_exist(table@, choice@),
            text::views(r@) == pickable(table@, res@, choice@.members, k as nat),
        decreases choice.members@.len() - k,
    {
        let m = &choice.members[k];
        assert(choice@.members[k as int] == m@);
        let ghost before = text::views(r@);
        match table.index_of(m.as_str()) {
            Some(i) => {
                assert(table@.symbols[i as int] == table.symbols@[i as int]@);
                let unmet = match &res.entries[i].reason {
                    Reason::DependsUnmet(_) => true,
                    _ => false,
                };
                if table.symbols[i].settable() && !unmet {
                    r.push(m.clone());
                    assert(text::views(r@) =~= before.push(m@));
                }
            },
            None => {},
        }
        k += 1;
    }
    r
}

fn propose_member(table: &SymbolTable, w: &mut Working, c: usize) -> (r: Option<String>)
    requires
        c < table.choices@.len(),
        resolve::fits(table@, old(w).res@),
        resolve::members_exist(table@, table@.choices[c as int]),
    ensures
        (super::opt_text(r), final(w).rng.state) == member_proposed(table@, draft(*old(w)), table@.choices[c as int]),
        final(w).res == old(w).res,
        final(w).requests == old(w).requests,
        final(w).seen == old(w).seen,
{
    let us = find_pickable(table, c, &w.res);
    let ghost names = text::views(us@);
    if us.len() == 0 {
        return None;
    }
    let k: u64 = w.rng.below(us.len() as u64);
    let pick = &us[k as usize];
    assert(names[k as int] == pick@);
    proof {
        pickable_are_settable(
            table@,
            w.res@,
            table@.choices[c as int].members,
            table@.choices[c as int].members.len(),
        );
    }
    match table.index_of(pick.as_str()) {
        Some(i) => {
            if w.res.entries[i].value.is_on() {
                None
            } else {
                Some(pick.clone())
            }
        },
        None => None,
    }
}

fn propose_number(table: &SymbolTable, w: &mut Working, i: usize, kind: Kind) -> (r: Option<Val>)
    requires
        super::well_formed(table@),
        i < table.symbols@.len(),
        kind == table@.symbols[i as int].kind,
        kind == Kind::Int || kind == Kind::Hex,
    ensures
        ({
            let want = value_proposed(table@, Mode::Random(0), draft(*old(w)), i as int);
            &&& final(w).rng.state == want.1
            &&& match r {
                Some(v) => want.0 == Some(v@),
                None => want.0 is None,
            }
        }),
        final(w).res == old(w).res,
        final(w).requests == old(w).requests,
        final(w).seen == old(w).seen,
{
    let sym = &table.symbols[i];
    assert(table@.symbols[i as int] == sym@);
    let (lo, hi) = match resolve::active_range(sym, &w.res) {
        Some(r) => (r.lo, r.hi),
        None => return None,
    };
    proof {
        assert(super::sym_sound(table@, table@.symbols[i as int]));
        resolve::active_span_is_listed(sym@.ranges, w.res@, 0);
    }
    let q: u64 = w.rng.below(4);
    if q == 2 {
        return None;
    }
    let v: i128 = if q == 0 {
        lo
    } else if q == 1 {
        hi
    } else {
        w.rng.between(lo, hi)
    };
    match kind {
        Kind::Int => Some(Val::Int(v as i64)),
        _ => Some(Val::Hex(v as u64)),
    }
}

fn propose_value(table: &SymbolTable, mode: Mode, w: &mut Working, i: usize) -> (r: Option<Val>)
    requires
        super::well_formed(table@),
        i < table.symbols@.len(),
    ensures
        ({
            let want = value_proposed(table@, mode, draft(*old(w)), i as int);
            &&& final(w).rng.state == want.1
            &&& match r {
                Some(v) => want.0 == Some(v@),
                None => want.0 is None,
            }
        }),
        final(w).res == old(w).res,
        final(w).requests == old(w).requests,
        final(w).seen == old(w).seen,
{
    let kind = table.symbols[i].kind;
    assert(table@.symbols[i as int] == table.symbols@[i as int]@);
    match (mode, kind) {
        (Mode::AllYes, Kind::Bool) => Some(Val::Tri(Tri::Y)),
        (Mode::AllYes, Kind::Tristate) => Some(Val::Tri(Tri::Y)),
        (Mode::AllNo, Kind::Bool) => Some(Val::Tri(Tri::N)),
        (Mode::AllNo, Kind::Tristate) => Some(Val::Tri(Tri::N)),
        (Mode::Random(_), Kind::Bool) => {
            if w.rng.below(2) == 0 {
                Some(Val::Tri(Tri::N))
            } else {
                Some(Val::Tri(Tri::Y))
            }
        },
        (Mode::Random(_), Kind::Tristate) => {
            let n: u64 = if w.res.tri(MODULES) == Tri::Y {
                3
            } else {
                2
            };
            let v: u64 = w.rng.below(n);
            if v == 0 {
                Some(Val::Tri(Tri::N))
            } else if v == 1 {
                Some(Val::Tri(Tri::Y))
            } else {
                Some(Val::Tri(Tri::M))
            }
        },
        (Mode::Random(_), Kind::Int) => propose_number(table, w, i, kind),
        (Mode::Random(_), Kind::Hex) => propose_number(table, w, i, kind),
        _ => None,
    }
}

fn listed(names: &Vec<String>, name: &String) -> (r: bool)
    ensures
        r == text::views(names@).contains(name@),
{
    let mut i: usize = 0;
    while i < names.len()
        invariant
            i <= names@.len(),
            forall|k: int| 0 <= k < i ==> (#[trigger] text::views(names@)[k]) != name@,
        decreases names@.len() - i,
    {
        if names[i] == *name {
            assert(text::views(names@)[i as int] == name@);
            return true;
        }
        i += 1;
    }
    false
}

fn propose(table: &SymbolTable, mode: Mode, w: &mut Working, i: usize) -> (r: Option<Request>)
    requires
        super::well_formed(table@),
        i < table.symbols@.len(),
        resolve::fits(table@, old(w).res@),
    ensures
        ({
            let want = proposed(table@, mode, draft(*old(w)), i as int);
            &&& draft(*final(w)) == want.1
            &&& match r {
                Some(q) => want.0 == Some(q@),
                None => want.0 is None,
            }
        }),
        final(w).res == old(w).res,
        final(w).requests == old(w).requests,
{
    let sym = &table.symbols[i];
    assert(table@.symbols[i as int] == sym@);
    if is_fixed(&w.requests, &sym.name) {
        return None;
    }
    match &sym.choice {
        Some(cname) => {
            if listed(&w.seen, cname) {
                return None;
            }
            let ghost before = text::views(w.seen@);
            w.seen.push(cname.clone());
            assert(text::views(w.seen@) =~= before.push(cname@));
            proof {
                choice_stands(table@, i as int);
            }
            let c: usize = match table.choice_index(cname.as_str()) {
                Some(c) => c,
                None => return None,
            };
            assert(table@.choices[c as int] == table.choices@[c as int]@);
            if any_is_fixed(&w.requests, &table.choices[c].members) {
                return None;
            }
            match mode {
                Mode::Random(_) => {
                    match propose_member(table, w, c) {
                        Some(m) => Some(
                            Request { symbol: m, text: Tri::Y.as_str().to_owned(), source: mode.source() },
                        ),
                        None => None,
                    }
                },
                _ => None,
            }
        },
        None => {
            let unmet = match &w.res.entries[i].reason {
                Reason::DependsUnmet(_) => true,
                _ => false,
            };
            if !sym.settable() || unmet {
                return None;
            }
            match propose_value(table, mode, w, i) {
                Some(v) => {
                    if w.res.entries[i].value.same(&v) {
                        None
                    } else {
                        Some(Request { symbol: sym.name.clone(), text: v.display(), source: mode.source() })
                    }
                },
                None => None,
            }
        },
    }
}

fn copy_requests(requests: &[Request]) -> (r: Vec<Request>)
    ensures
        resolve::asks(r@) == resolve::asks(requests@),
{
    let mut r: Vec<Request> = Vec::new();
    let mut i: usize = 0;
    while i < requests.len()
        invariant
            i <= requests@.len(),
            r@.len() == i,
            forall|k: int| 0 <= k < i ==> (#[trigger] r@[k])@ == requests@[k]@,
        decreases requests@.len() - i,
    {
        r.push(requests[i].clone());
        i += 1;
    }
    assert(resolve::asks(r@) =~= resolve::asks(requests@));
    r
}

fn sweep(table: &SymbolTable, mode: Mode, w: &mut Working)
    requires
        super::well_formed(table@),
        valid(table@, draft(*old(w))),
    ensures
        draft(*final(w)) == swept(table@, mode, draft(*old(w)), 0),
        valid(table@, draft(*final(w))),
{
    let mut i: usize = 0;
    while i < table.symbols.len()
        invariant
            i <= table.symbols@.len(),
            super::well_formed(table@),
            valid(table@, draft(*w)),
            swept(table@, mode, draft(*old(w)), 0) == swept(table@, mode, draft(*w), i as int),
        decreases table.symbols@.len() - i,
    {
        proof {
            resolve::every_symbol_is_decided(table@, draft(*w).asked);
        }
        match propose(table, mode, w, i) {
            None => {},
            Some(q) => {
                let mut trial = copy_requests(w.requests.as_slice());
                let ghost before = resolve::asks(trial@);
                let ghost a = q@;
                trial.push(q);
                assert(resolve::asks(trial@) =~= before.push(a));
                match resolve::resolve(table, trial.as_slice()) {
                    Ok(r) => {
                        w.res = r;
                        w.requests = trial;
                    },
                    Err(_) => {},
                }
            },
        }
        i += 1;
    }
}

/// Extend `base` into a complete configuration by `mode`.
///
/// Returns the resolution and every request it was built from: `base` first, unchanged,
/// then the generated ones. `base` is typically a preset, which fixes the architecture
/// and anything else a sample must not move. An error means `base` itself does not
/// resolve.
pub fn generate(
    table: &SymbolTable,
    base: &[Request],
    mode: Mode,
) -> (r: Result<(Resolution, Vec<Request>), Vec<ResolveError>>)
    requires
        super::well_formed(table@),
    ensures
        match r {
            Ok((o, all)) => generated(table@, resolve::asks(base@), mode) == Ok::<
                (resolve::Outcome, Seq<resolve::Ask>),
                Seq<resolve::Fault>,
            >((o@, resolve::asks(all@))),
            Err(e) => generated(table@, resolve::asks(base@), mode) == Err::<
                (resolve::Outcome, Seq<resolve::Ask>),
                Seq<resolve::Fault>,
            >(resolve::faults(e@)),
        },
{
    let res = match resolve::resolve(table, base) {
        Ok(r) => r,
        Err(e) => return Err(e),
    };
    let seed: u64 = match mode {
        Mode::Random(s) => s,
        _ => 0,
    };
    let mut w = Working { res, requests: copy_requests(base), rng: Rng::new(seed), seen: Vec::new() };
    assert(text::views(w.seen@) =~= seq![]);
    sweep(table, mode, &mut w);
    let ghost first = draft(w);
    w.seen = Vec::new();
    assert(text::views(w.seen@) =~= seq![]);
    sweep(table, mode, &mut w);
    Ok((w.res, w.requests))
}

} // verus!
