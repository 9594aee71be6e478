//! What is drawn for a configuration that is made up, said of the symbols and the numbers themselves.

use vstd::prelude::*;

use super::expr::Tri;
use super::random;
use super::random::Draft;
use super::random::Mode;
use super::resolve;

verus! {

/// A number that is drawn is below its bound, and every number below the bound is as likely: what is kept of
/// the generator's range is a multiple of the bound, and no more than the bound is given up.
pub proof fn draws_stay_below(s: u64, n: u64)
    requires
        n > 0,
    ensures
        random::drawn(s, n).0 < n,
        random::fair(n) % (n as int) == 0,
        u64::MAX - random::fair(n) < n,
{
    random::drawn_is_below(s, n);
    let m = u64::MAX as int;
    let k = n as int;
    vstd::arithmetic::div_mod::lemma_fundamental_div_mod(m, k);
    vstd::arithmetic::div_mod::lemma_mod_bound(m, k);
    assert(random::fair(n) == k * (m / k));
    vstd::arithmetic::div_mod::lemma_mod_multiples_basic(m / k, k);
    vstd::arithmetic::mul::lemma_mul_is_commutative(m / k, k);
}

/// A number that is drawn between two bounds is one of them or lies between, and the upper one is drawn as any
/// other is: as many numbers are drawn from as there are.
pub proof fn draws_stay_between(s: u64, lo: int, hi: int)
    requires
        lo <= hi,
    ensures
        lo <= random::drawn_between(s, lo, hi).0 <= hi,
        hi - lo < u64::MAX ==> random::drawn_between(s, lo, hi).0 - lo == random::drawn(s, (hi - lo + 1) as u64).0,
        hi - lo < u64::MAX ==> random::drawn_between(s, lo, hi).1 == random::drawn(s, (hi - lo + 1) as u64).1,
        lo == hi ==> random::drawn_between(s, lo, hi).0 == lo,
{
    let span = hi - lo + 1;
    if span <= u64::MAX {
        random::drawn_is_below(s, span as u64);
    }
}

/// With everything on, every switch is asked to be on and nothing else is asked; with everything off, every
/// switch is asked to be off.
pub proof fn boundaries_ask_one_thing(t: super::Table, d: Draft, i: int)
    requires
        0 <= i < t.symbols.len(),
    ensures
        ({
            let yes = random::value_proposed(t, Mode::AllYes, d, i);
            let no = random::value_proposed(t, Mode::AllNo, d, i);
            let switch = t.symbols[i].kind is Bool || t.symbols[i].kind is Tristate;
            &&& switch ==> yes.0 == Some(super::Value::Tri(Tri::Y)) && no.0 == Some(super::Value::Tri(Tri::N))
            &&& !switch ==> yes.0 is None && no.0 is None
            &&& yes.1 == d.rng && no.1 == d.rng
        }),
{
}

/// What is drawn for a symbol is a value that it can have: a switch is on or off, and a module only where
/// modules are on; a number lies in the first range that is met, and without one nothing is asked; nor is it
/// for a text.
pub proof fn drawn_values_fit(t: super::Table, seed: u64, d: Draft, i: int, j: int)
    requires
        0 <= i < t.symbols.len(),
        0 <= j <= t.symbols[i].ranges.len(),
        forall|k: int|
            0 <= k < j ==> !resolve::holds(d.o.names, d.o.vals, (#[trigger] t.symbols[i].ranges[k]).cond),
        j < t.symbols[i].ranges.len() ==> {
            let r = t.symbols[i].ranges[j];
            &&& resolve::holds(d.o.names, d.o.vals, r.cond)
            &&& r.lo <= r.hi
            &&& t.symbols[i].kind is Int ==> i64::MIN <= r.lo && r.hi <= i64::MAX
            &&& t.symbols[i].kind is Hex ==> 0 <= r.lo && r.hi <= u64::MAX
        },
    ensures
        ({
            let s = t.symbols[i];
            let v = random::value_proposed(t, Mode::Random(seed), d, i).0;
            let modular = resolve::tri_in(d.o.names, d.o.vals, "MODULES"@) == Tri::Y;
            &&& s.kind is Bool ==> v == Some(super::Value::Tri(Tri::Y)) || v == Some(super::Value::Tri(Tri::N))
            &&& s.kind is Tristate ==> (v matches Some(super::Value::Tri(x)) && (x == Tri::M ==> modular))
            &&& s.kind is Str ==> v is None
            &&& (s.kind is Int || s.kind is Hex) && j == s.ranges.len() ==> v is None
            &&& s.kind is Int && j < s.ranges.len() && v is Some ==> {
                &&& v matches Some(super::Value::Int(x))
                &&& s.ranges[j].lo <= x <= s.ranges[j].hi
            }
            &&& s.kind is Hex && j < s.ranges.len() && v is Some ==> {
                &&& v matches Some(super::Value::Hex(x))
                &&& s.ranges[j].lo <= x <= s.ranges[j].hi
            }
        }),
{
    let s = t.symbols[i];
    the_first_span(s.ranges, d.o, j, 0);
    random::drawn_is_below(d.rng, 2);
    random::drawn_is_below(d.rng, 3);
    if j < s.ranges.len() {
        let q = random::drawn(d.rng, 4);
        draws_stay_between(q.1, s.ranges[j].lo, s.ranges[j].hi);
    }
}

proof fn the_first_span(r: Seq<super::Span>, o: resolve::Outcome, j: int, i: int)
    requires
        0 <= i <= j <= r.len(),
        forall|k: int| i <= k < j ==> !resolve::holds(o.names, o.vals, (#[trigger] r[k]).cond),
        j < r.len() ==> resolve::holds(o.names, o.vals, r[j].cond),
    ensures
        resolve::active_span(r, o, i) == if j < r.len() {
            Some(r[j])
        } else {
            None
        },
    decreases j - i,
{
    if i < j {
        assert(!resolve::holds(o.names, o.vals, r[i].cond));
        the_first_span(r, o, j, i + 1);
    }
}

/// Nothing is asked of a symbol that was asked for, that cannot be set, that has unmet dependencies, or that
/// would be asked to be what it is; what is asked is asked of the symbol whose turn it is, or of a member
/// of its choice.
pub proof fn only_what_is_open_is_asked(t: super::Table, mode: Mode, d: Draft, i: int)
    requires
        0 <= i < t.symbols.len(),
    ensures
        ({
            let s = t.symbols[i];
            let p = random::proposed(t, mode, d, i);
            &&& (exists|k: int| 0 <= k < d.asked.len() && (#[trigger] d.asked[k]).symbol == s.name) ==> p.0 is None
            &&& s.choice is None && (s.prompt is None || s.readonly || d.o.causes[i] is DependsUnmet) ==> p.0 is None
            &&& s.choice is Some && d.seen.contains(s.choice->0) ==> p.0 is None
            &&& s.choice is Some && !(mode is Random) ==> p.0 is None
            &&& s.choice is None && p.0 is Some ==> p.0->0.symbol == s.name && p.0->0.text == super::written(
                random::value_proposed(t, mode, d, i).0->0,
            ) && random::value_proposed(t, mode, d, i).0->0 != d.o.vals[i]
            &&& p.1.asked == d.asked && p.1.o == d.o
        }),
{
}

/// The members that may be picked of a choice are those that can be set and whose dependencies are met.
pub proof fn members_that_can_be_are_picked(t: super::Table, o: resolve::Outcome, members: Seq<Seq<char>>, n: nat, k: int)
    requires
        0 <= k < n <= members.len(),
    ensures
        ({
            let i = resolve::place_of(t, members[k]);
            let open = t.symbols[i].prompt is Some && !t.symbols[i].readonly && !(o.causes[i] is DependsUnmet);
            random::pickable(t, o, members, n).contains(members[k]) <==> open
        }),
    decreases n,
{
    let all = random::pickable(t, o, members, n);
    let before = random::pickable(t, o, members, (n - 1) as nat);
    picked_are_open(t, o, members, n);
    let i = resolve::place_of(t, members[k]);
    if super::can_set(t.symbols[i]) && !(o.causes[i] is DependsUnmet) {
        if k == n - 1 {
            assert(all == before.push(members[k]));
            assert(all[before.len() as int] == members[k]);
        } else {
            members_that_can_be_are_picked(t, o, members, (n - 1) as nat, k);
            let q = before.index_of(members[k]);
            assert(all[q] == members[k]);
        }
    }
}

proof fn picked_are_open(t: super::Table, o: resolve::Outcome, members: Seq<Seq<char>>, n: nat)
    requires
        n <= members.len(),
    ensures
        forall|q: int|
            0 <= q < random::pickable(t, o, members, n).len() ==> {
                let i = resolve::place_of(t, #[trigger] random::pickable(t, o, members, n)[q]);
                super::can_set(t.symbols[i]) && !(o.causes[i] is DependsUnmet)
            },
    decreases n,
{
    if n > 0 {
        picked_are_open(t, o, members, (n - 1) as nat);
    }
}

} // verus!
