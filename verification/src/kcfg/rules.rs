//! What a resolved configuration owes to the files and the requests it came from, said of every
//! place in them: which request, which `select`, which default, which range and which member of a
//! choice has the say.

use vstd::prelude::*;

use super::expr;
use super::expr::Tri;
use super::parse;
use super::resolve;
use super::resolve::{Ask, Cause, Outcome, Wish};
use super::Kind;
use super::MODULES;

verus! {

/// Whether a condition does not come out as `n`. An absent one never does.
pub open spec fn met(o: Outcome, c: Option<expr::Cond>) -> bool {
    c is None || resolve::eval_in(o.names, o.vals, c->0) != Tri::N
}

/// Whether no request names the symbol at `i`.
pub open spec fn unasked(t: super::Table, asked: Seq<Ask>, i: int) -> bool {
    forall|a: int| 0 <= a < asked.len() ==> (#[trigger] asked[a]).symbol != t.symbols[i].name
}

/// Whether the request at `a` names the symbol at `i`, and none after it does.
pub open spec fn last_asked(t: super::Table, asked: Seq<Ask>, i: int, a: int) -> bool {
    &&& 0 <= a < asked.len()
    &&& asked[a].symbol == t.symbols[i].name
    &&& forall|b: int| a < b < asked.len() ==> (#[trigger] asked[b]).symbol != t.symbols[i].name
}

/// Whether the `select` at `j` of the symbol at `s` forces the symbol at `i` on.
pub open spec fn forces(t: super::Table, o: Outcome, s: int, j: int, i: int) -> bool {
    &&& 0 <= s < t.symbols.len()
    &&& 0 <= j < t.symbols[s].selects.len()
    &&& super::truth(o.vals[s]) != Tri::N
    &&& t.symbols[s].selects[j].target == t.symbols[i].name
    &&& met(o, t.symbols[s].selects[j].cond)
}

/// Whether nothing forces the symbol at `i` on.
pub open spec fn unforced(t: super::Table, o: Outcome, i: int) -> bool {
    forall|s: int, j: int| !#[trigger] forces(t, o, s, j, i)
}

proof fn nobody_asked(s: super::Sym, asked: Seq<Ask>, k: nat)
    requires
        k <= asked.len(),
        forall|a: int| 0 <= a < k ==> (#[trigger] asked[a]).symbol != s.name,
    ensures
        resolve::wish(s, asked, k) is None,
    decreases k,
{
    if k > 0 {
        nobody_asked(s, asked, (k - 1) as nat);
    }
}

pub(crate) proof fn the_last_request_is_the_wish(s: super::Sym, asked: Seq<Ask>, a: int, k: nat)
    requires
        0 <= a < k <= asked.len(),
        asked[a].symbol == s.name,
        forall|b: int| a < b < k ==> (#[trigger] asked[b]).symbol != s.name,
    ensures
        resolve::wish(s, asked, k) == Some(
            Wish { value: parse::value_of(asked[a].text, s.kind)->Ok_0, source: asked[a].source },
        ),
    decreases k,
{
    if k - 1 > a {
        assert(asked[k - 1].symbol != s.name);
        the_last_request_is_the_wish(s, asked, a, (k - 1) as nat);
    }
}

proof fn nothing_selects(t: super::Table, o: Outcome, i: int, from: int)
    requires
        0 <= from,
        unforced(t, o, i),
    ensures
        resolve::selector(t, o.names, o.vals, t.symbols[i].name, from) is None,
    decreases t.symbols.len() - from,
{
    if from < t.symbols.len() {
        let s = t.symbols[from];
        if super::truth(o.vals[from]) != Tri::N && resolve::pulls_now(s, o.names, o.vals, t.symbols[i].name) {
            let j = choose|j: int|
                0 <= j < s.selects.len() && (#[trigger] s.selects[j]).target == t.symbols[i].name && resolve::holds(
                    o.names,
                    o.vals,
                    s.selects[j].cond,
                );
            assert(forces(t, o, from, j, i));
        }
        nothing_selects(t, o, i, from + 1);
    }
}

pub(crate) proof fn something_selects(t: super::Table, o: Outcome, i: int, s: int, j: int, from: int)
    requires
        0 <= from <= s,
        forces(t, o, s, j, i),
        forall|r: int, k: int| from <= r < s ==> !#[trigger] forces(t, o, r, k, i),
    ensures
        resolve::selector(t, o.names, o.vals, t.symbols[i].name, from) == Some(t.symbols[s].name),
    decreases s - from,
{
    let x = t.symbols[from];
    if from < s {
        if super::truth(o.vals[from]) != Tri::N && resolve::pulls_now(x, o.names, o.vals, t.symbols[i].name) {
            let k = choose|k: int|
                0 <= k < x.selects.len() && (#[trigger] x.selects[k]).target == t.symbols[i].name && resolve::holds(
                    o.names,
                    o.vals,
                    x.selects[k].cond,
                );
            assert(forces(t, o, from, k, i));
        }
        something_selects(t, o, i, s, j, from + 1);
    } else {
        assert(x.selects[j].target == t.symbols[i].name);
    }
}

proof fn the_least_default_is_found(d: Seq<super::Fallback>, o: Outcome, k: int, j: int)
    requires
        0 <= j <= k < d.len(),
        met(o, d[k].cond),
        forall|i: int| j <= i < k ==> !met(o, (#[trigger] d[i]).cond),
    ensures
        resolve::first_default(d, o, j) == Some(d[k].value),
    decreases k - j,
{
    if j < k {
        assert(!met(o, d[j].cond));
        the_least_default_is_found(d, o, k, j + 1);
    }
}

proof fn no_default_is_found(d: Seq<super::Fallback>, o: Outcome, j: int)
    requires
        0 <= j,
        forall|i: int| j <= i < d.len() ==> !met(o, (#[trigger] d[i]).cond),
    ensures
        resolve::first_default(d, o, j) is None,
    decreases d.len() - j,
{
    if j < d.len() {
        assert(!met(o, d[j].cond));
        no_default_is_found(d, o, j + 1);
    }
}

/// The first default that applies decides. A symbol outside every choice that nobody asked for,
/// that nothing selects and whose dependencies are met when it is its turn has the value of the
/// default at `k`, where that one's condition is met and no earlier one's is.
pub proof fn the_first_default_that_is_met_decides(t: super::Table, asked: Seq<Ask>, i: int, k: int)
    requires
        super::well_formed(t),
        resolve::resolved(t, asked) is Ok,
        0 <= i < t.symbols.len(),
        t.symbols[i].choice is None,
        unasked(t, asked, i),
        unforced(t, resolve::resolved(t, asked)->Ok_0, i),
        ({
            let turn = resolve::before_symbol(
                t,
                resolve::wishes(t, asked, asked.len()),
                resolve::resolved(t, asked)->Ok_0,
                i as nat,
            );
            let d = t.symbols[i].defaults;
            &&& met(turn, t.symbols[i].depends)
            &&& 0 <= k < d.len()
            &&& met(turn, d[k].cond)
            &&& forall|j: int| 0 <= j < k ==> !met(turn, (#[trigger] d[j]).cond)
        }),
    ensures
        resolve::resolved(t, asked)->Ok_0.vals[i] == t.symbols[i].defaults[k].value,
{
    let w = resolve::wishes(t, asked, asked.len());
    let o = resolve::resolved(t, asked)->Ok_0;
    nobody_asked(t.symbols[i], asked, asked.len());
    nothing_selects(t, o, i, 0);
    the_least_default_is_found(t.symbols[i].defaults, resolve::before_symbol(t, w, o, i as nat), k, 0);
    resolve::symbols_follow_their_rules(t, asked, i);
}

/// The first default that applies in the configuration itself decides. A symbol outside every choice
/// that nobody asked for, that nothing selects and whose dependencies are met has the value of the
/// default at `k`, where that one's condition is absent or not `n` and every earlier one's is `n`.
pub proof fn the_first_default_decides(t: super::Table, asked: Seq<Ask>, i: int, k: int)
    requires
        super::well_formed(t),
        resolve::resolved(t, asked) is Ok,
        resolve::members_rest(t, resolve::resolved(t, asked)->Ok_0),
        0 <= i < t.symbols.len(),
        t.symbols[i].choice is None,
        unasked(t, asked, i),
        ({
            let o = resolve::resolved(t, asked)->Ok_0;
            let d = t.symbols[i].defaults;
            &&& unforced(t, o, i)
            &&& met(o, t.symbols[i].depends)
            &&& 0 <= k < d.len()
            &&& met(o, d[k].cond)
            &&& forall|j: int| 0 <= j < k ==> !met(o, (#[trigger] d[j]).cond)
        }),
    ensures
        resolve::resolved(t, asked)->Ok_0.vals[i] == t.symbols[i].defaults[k].value,
{
    let o = resolve::resolved(t, asked)->Ok_0;
    nobody_asked(t.symbols[i], asked, asked.len());
    nothing_selects(t, o, i, 0);
    the_least_default_is_found(t.symbols[i].defaults, o, k, 0);
    resolve::symbols_follow_their_rules_in_the_end(t, asked, i);
}

/// Whether a value is what a symbol of kind `k` has when nothing sets it: off, zero or empty.
pub open spec fn nothing(v: super::Value, k: Kind) -> bool {
    match v {
        super::Value::Tri(x) => (k == Kind::Bool || k == Kind::Tristate) && x == Tri::N,
        super::Value::Int(n) => k == Kind::Int && n == 0,
        super::Value::Hex(n) => k == Kind::Hex && n == 0,
        super::Value::Str(s) => k == Kind::Str && s.len() == 0,
    }
}

/// What nothing sets is off, zero or empty: a symbol outside every choice that nobody asked for,
/// that nothing selects and none of whose defaults applies.
pub proof fn what_nothing_sets_is_off(t: super::Table, asked: Seq<Ask>, i: int)
    requires
        super::well_formed(t),
        resolve::resolved(t, asked) is Ok,
        resolve::members_rest(t, resolve::resolved(t, asked)->Ok_0),
        0 <= i < t.symbols.len(),
        t.symbols[i].choice is None,
        unasked(t, asked, i),
        unforced(t, resolve::resolved(t, asked)->Ok_0, i),
        forall|j: int|
            0 <= j < t.symbols[i].defaults.len() ==> !met(
                resolve::resolved(t, asked)->Ok_0,
                (#[trigger] t.symbols[i].defaults[j]).cond,
            ),
    ensures
        nothing(resolve::resolved(t, asked)->Ok_0.vals[i], t.symbols[i].kind),
{
    let o = resolve::resolved(t, asked)->Ok_0;
    nobody_asked(t.symbols[i], asked, asked.len());
    nothing_selects(t, o, i, 0);
    no_default_is_found(t.symbols[i].defaults, o, 0);
    resolve::symbols_follow_their_rules_in_the_end(t, asked, i);
}

/// A symbol outside every choice whose dependencies are not met is off, zero or empty, whatever
/// selects it and whatever its defaults say.
pub proof fn unmet_dependencies_switch_off(t: super::Table, asked: Seq<Ask>, i: int)
    requires
        super::well_formed(t),
        resolve::resolved(t, asked) is Ok,
        resolve::members_rest(t, resolve::resolved(t, asked)->Ok_0),
        0 <= i < t.symbols.len(),
        t.symbols[i].choice is None,
        !met(resolve::resolved(t, asked)->Ok_0, t.symbols[i].depends),
    ensures
        nothing(resolve::resolved(t, asked)->Ok_0.vals[i], t.symbols[i].kind),
{
    resolve::symbols_follow_their_rules_in_the_end(t, asked, i);
}

/// What is selected is on: a symbol outside every choice that nobody asked for and whose
/// dependencies are met is `y` where some symbol that is on selects it under a condition that is met.
pub proof fn the_selected_is_on(t: super::Table, asked: Seq<Ask>, i: int, s: int, j: int)
    requires
        super::well_formed(t),
        resolve::resolved(t, asked) is Ok,
        resolve::members_rest(t, resolve::resolved(t, asked)->Ok_0),
        0 <= i < t.symbols.len(),
        t.symbols[i].choice is None,
        unasked(t, asked, i),
        met(resolve::resolved(t, asked)->Ok_0, t.symbols[i].depends),
        forces(t, resolve::resolved(t, asked)->Ok_0, s, j, i),
    ensures
        resolve::resolved(t, asked)->Ok_0.vals[i] == super::Value::Tri(Tri::Y),
{
    let o = resolve::resolved(t, asked)->Ok_0;
    nobody_asked(t.symbols[i], asked, asked.len());
    let r = the_first_that_forces(t, o, i, s, j, 0);
    something_selects(t, o, i, r.0, r.1, 0);
    resolve::symbols_follow_their_rules_in_the_end(t, asked, i);
}

proof fn the_first_that_forces(t: super::Table, o: Outcome, i: int, s: int, j: int, from: int) -> (r: (int, int))
    requires
        0 <= from <= s,
        forces(t, o, s, j, i),
    ensures
        from <= r.0 <= s,
        forces(t, o, r.0, r.1, i),
        forall|x: int, k: int| from <= x < r.0 ==> !#[trigger] forces(t, o, x, k, i),
    decreases s - from,
{
    if from == s {
        (s, j)
    } else if exists|k: int| forces(t, o, from, k, i) {
        (from, choose|k: int| forces(t, o, from, k, i))
    } else {
        the_first_that_forces(t, o, i, s, j, from + 1)
    }
}

/// The last request has the say: a symbol that was asked for, in a choice or outside one, is what the
/// last request that names it reads as. It was not readonly, and nothing that selects it was asked
/// to be off in vain.
pub proof fn the_last_request_decides(t: super::Table, asked: Seq<Ask>, i: int, a: int)
    requires
        super::well_formed(t),
        resolve::resolved(t, asked) is Ok,
        0 <= i < t.symbols.len(),
        last_asked(t, asked, i, a),
    ensures
        ({
            let o = resolve::resolved(t, asked)->Ok_0;
            &&& parse::value_of(asked[a].text, t.symbols[i].kind) == Ok::<super::Value, Seq<char>>(o.vals[i])
            &&& !t.symbols[i].readonly
            &&& super::truth(o.vals[i]) == Tri::N ==> unforced(t, o, i)
            &&& o.vals[i] == super::Value::Tri(Tri::M) ==> resolve::tri_in(o.names, o.vals, MODULES@) == Tri::Y
        }),
{
    let o = resolve::resolved(t, asked)->Ok_0;
    the_last_request_is_the_wish(t.symbols[i], asked, a, asked.len());
    resolve::requests_are_honoured(t, asked, i);
    requests_that_resolve_are_sound(t, asked, a);
    names_are_found(t, i, 0);
    if super::truth(o.vals[i]) == Tri::N {
        assert forall|s: int, j: int| !#[trigger] forces(t, o, s, j, i) by {
            if forces(t, o, s, j, i) {
                let r = the_first_that_forces(t, o, i, s, j, 0);
                something_selects(t, o, i, r.0, r.1, 0);
            }
        }
    }
}

pub(crate) proof fn names_are_found(t: super::Table, i: int, from: int)
    requires
        super::well_formed(t),
        0 <= from <= i < t.symbols.len(),
    ensures
        super::sym_from(t.symbols, t.symbols[i].name, from) == Some(i),
    decreases i - from,
{
    if from < i {
        names_are_found(t, i, from + 1);
    }
}

proof fn no_request_is_at_fault(t: super::Table, asked: Seq<Ask>, a: int, k: nat)
    requires
        0 <= a < k <= asked.len(),
        resolve::ask_faults(t, asked, k).len() == 0,
    ensures
        resolve::ask_fault(t, asked[a]) is None,
    decreases k,
{
    if a < k - 1 {
        no_request_is_at_fault(t, asked, a, (k - 1) as nat);
    }
}

proof fn found_names_are_there(t: super::Table, name: Seq<char>, from: int)
    requires
        0 <= from,
    ensures
        match super::sym_from(t.symbols, name, from) {
            Some(i) => from <= i < t.symbols.len() && t.symbols[i].name == name,
            None => forall|i: int| from <= i < t.symbols.len() ==> (#[trigger] t.symbols[i]).name != name,
        },
    decreases t.symbols.len() - from,
{
    if from < t.symbols.len() {
        found_names_are_there(t, name, from + 1);
    }
}

/// Where a configuration resolves, every request in it names a symbol that exists and may be set, and
/// gives it a value of its kind.
pub proof fn requests_that_resolve_are_sound(t: super::Table, asked: Seq<Ask>, a: int)
    requires
        resolve::resolved(t, asked) is Ok,
        0 <= a < asked.len(),
    ensures
        exists|i: int|
            {
                &&& 0 <= i < t.symbols.len()
                &&& (#[trigger] t.symbols[i]).name == asked[a].symbol
                &&& !t.symbols[i].readonly
                &&& parse::value_of(asked[a].text, t.symbols[i].kind) is Ok
            },
{
    no_request_is_at_fault(t, asked, a, asked.len());
    found_names_are_there(t, asked[a].symbol, 0);
    let i = super::sym_from(t.symbols, asked[a].symbol, 0)->0;
    assert(t.symbols[i].name == asked[a].symbol);
}

proof fn the_least_range_is_found(r: Seq<super::Span>, o: Outcome, k: int, j: int)
    requires
        0 <= j <= k < r.len(),
        met(o, r[k].cond),
        forall|i: int| j <= i < k ==> !met(o, (#[trigger] r[i]).cond),
    ensures
        resolve::active_span(r, o, j) == Some(r[k]),
    decreases k - j,
{
    if j < k {
        assert(!met(o, r[j].cond));
        the_least_range_is_found(r, o, k, j + 1);
    }
}

/// The first range that applies binds: a number that is part of the build lies between the bounds of
/// the range at `k`, both counted in, where that one's condition is met and no earlier one's is.
pub proof fn the_first_range_binds(t: super::Table, asked: Seq<Ask>, i: int, k: int)
    requires
        resolve::resolved(t, asked) is Ok,
        0 <= i < t.symbols.len(),
        0 <= k < t.symbols[i].ranges.len(),
        met(resolve::resolved(t, asked)->Ok_0, t.symbols[i].ranges[k].cond),
        forall|j: int|
            0 <= j < k ==> !met(resolve::resolved(t, asked)->Ok_0, (#[trigger] t.symbols[i].ranges[j]).cond),
        !(resolve::resolved(t, asked)->Ok_0.causes[i] is DependsUnmet),
    ensures
        match resolve::resolved(t, asked)->Ok_0.vals[i] {
            super::Value::Int(n) => t.symbols[i].ranges[k].lo <= n <= t.symbols[i].ranges[k].hi,
            super::Value::Hex(n) => t.symbols[i].ranges[k].lo <= n <= t.symbols[i].ranges[k].hi,
            _ => true,
        },
{
    the_least_range_is_found(t.symbols[i].ranges, resolve::resolved(t, asked)->Ok_0, k, 0);
    resolve::ranges_hold(t, asked, i);
}

/// Whether the dependencies of the symbol called `m` are met.
pub open spec fn can_be(t: super::Table, o: Outcome, m: Seq<char>) -> bool {
    exists|p: int| 0 <= p < t.symbols.len() && (#[trigger] t.symbols[p]).name == m && met(o, t.symbols[p].depends)
}

/// Whether the last request for the symbol called `m` asks for `y`.
pub open spec fn wanted_on(t: super::Table, asked: Seq<Ask>, m: Seq<char>) -> bool {
    exists|p: int, a: int|
        {
            &&& 0 <= p < t.symbols.len()
            &&& t.symbols[p].name == m
            &&& #[trigger] last_asked(t, asked, p, a)
            &&& parse::value_of(asked[a].text, t.symbols[p].kind) == Ok::<super::Value, Seq<char>>(
                super::Value::Tri(Tri::Y),
            )
        }
}

/// Whether the default at `j` of a choice applies and names the member at `k`, which can be on.
pub open spec fn offers(t: super::Table, o: Outcome, g: super::Group, j: int, k: int) -> bool {
    &&& 0 <= j < g.defaults.len()
    &&& 0 <= k < g.members.len()
    &&& met(o, g.defaults[j].cond)
    &&& g.defaults[j].value == super::Value::Str(g.members[k])
    &&& can_be(t, o, g.members[k])
}

/// Whether the member at `k` of a choice can be on and was asked to be.
pub open spec fn asked_for(t: super::Table, asked: Seq<Ask>, o: Outcome, g: super::Group, k: int) -> bool {
    &&& 0 <= k < g.members.len()
    &&& can_be(t, o, g.members[k])
    &&& wanted_on(t, asked, g.members[k])
}

proof fn a_wish_has_a_request(s: super::Sym, asked: Seq<Ask>, k: nat) -> (a: int)
    requires
        k <= asked.len(),
        resolve::wish(s, asked, k) is Some,
    ensures
        0 <= a < k,
        asked[a].symbol == s.name,
        forall|b: int| a < b < k ==> (#[trigger] asked[b]).symbol != s.name,
    decreases k,
{
    if asked[k - 1].symbol == s.name {
        k - 1
    } else {
        a_wish_has_a_request(s, asked, (k - 1) as nat)
    }
}

proof fn wants_are_wishes(t: super::Table, asked: Seq<Ask>, p: int)
    requires
        super::well_formed(t),
        resolve::resolved(t, asked) is Ok,
        0 <= p < t.symbols.len(),
    ensures
        wanted_on(t, asked, t.symbols[p].name) <==> resolve::asked_on(
            t,
            resolve::wishes(t, asked, asked.len()),
            t.symbols[p].name,
        ),
{
    let m = t.symbols[p].name;
    names_are_found(t, p, 0);
    if wanted_on(t, asked, m) {
        let (q, a) = choose|q: int, a: int|
            {
                &&& 0 <= q < t.symbols.len()
                &&& t.symbols[q].name == m
                &&& #[trigger] last_asked(t, asked, q, a)
                &&& parse::value_of(asked[a].text, t.symbols[q].kind) == Ok::<super::Value, Seq<char>>(
                    super::Value::Tri(Tri::Y),
                )
            };
        names_are_found(t, q, 0);
        the_last_request_is_the_wish(t.symbols[q], asked, a, asked.len());
    }
    if resolve::asked_on(t, resolve::wishes(t, asked, asked.len()), m) {
        let a = a_wish_has_a_request(t.symbols[p], asked, asked.len());
        the_last_request_is_the_wish(t.symbols[p], asked, a, asked.len());
        no_request_is_at_fault(t, asked, a, asked.len());
        assert(last_asked(t, asked, p, a));
    }
}

proof fn can_be_is_usable(t: super::Table, o: Outcome, p: int)
    requires
        super::well_formed(t),
        0 <= p < t.symbols.len(),
    ensures
        resolve::place_of(t, t.symbols[p].name) == p,
        can_be(t, o, t.symbols[p].name) <==> resolve::holds(o.names, o.vals, t.symbols[p].depends),
{
    names_are_found(t, p, 0);
    if can_be(t, o, t.symbols[p].name) {
        let q = choose|q: int|
            0 <= q < t.symbols.len() && (#[trigger] t.symbols[q]).name == t.symbols[p].name && met(
                o,
                t.symbols[q].depends,
            );
        names_are_found(t, q, 0);
    }
}

proof fn members_stand(t: super::Table, g: super::Group, k: int) -> (p: int)
    requires
        super::well_formed(t),
        t.choices.contains(g),
        0 <= k < g.members.len(),
    ensures
        0 <= p < t.symbols.len(),
        t.symbols[p].name == g.members[k],
        p == resolve::place_of(t, g.members[k]),
{
    let c = choose|c: int| 0 <= c < t.choices.len() && t.choices[c] == g;
    assert(super::belongs(t, t.choices[c].members[k], t.choices[c].name));
    found_names_are_there(t, g.members[k], 0);
    resolve::place_of(t, g.members[k])
}

/// What can be on among the first `n` members: the members before `k` that can, then the one at `k`
/// if it can.
proof fn usable_grows(t: super::Table, o: Outcome, members: Seq<Seq<char>>, k: nat, n: nat)
    requires
        k <= n <= members.len(),
    ensures
        ({
            let (x, y) = (resolve::usable(t, o, members, k), resolve::usable(t, o, members, n));
            &&& x.len() <= y.len()
            &&& forall|q: int| 0 <= q < x.len() ==> #[trigger] y[q] == x[q]
            &&& k < n && resolve::holds(o.names, o.vals, t.symbols[resolve::place_of(t, members[k as int])].depends)
                ==> x.len() < y.len() && y[x.len() as int] == members[k as int]
        }),
    decreases n - k,
{
    if k < n {
        usable_grows(t, o, members, k, (n - 1) as nat);
    }
}

proof fn usable_come_from(t: super::Table, o: Outcome, members: Seq<Seq<char>>, k: nat, q: int) -> (i: int)
    requires
        k <= members.len(),
        0 <= q < resolve::usable(t, o, members, k).len(),
    ensures
        0 <= i < k,
        members[i] == resolve::usable(t, o, members, k)[q],
        resolve::holds(o.names, o.vals, t.symbols[resolve::place_of(t, members[i])].depends),
    decreases k,
{
    let before = resolve::usable(t, o, members, (k - 1) as nat);
    if q < before.len() {
        usable_come_from(t, o, members, (k - 1) as nat, q)
    } else {
        k - 1
    }
}

proof fn the_least_asked_is_found(t: super::Table, w: Seq<Option<Wish>>, us: Seq<Seq<char>>, q: int, i: int)
    requires
        0 <= i <= q < us.len(),
        resolve::asked_on(t, w, us[q]),
        forall|r: int| i <= r < q ==> !resolve::asked_on(t, w, #[trigger] us[r]),
    ensures
        resolve::first_asked(t, w, us, i) == Some(us[q]),
    decreases q - i,
{
    if i < q {
        assert(!resolve::asked_on(t, w, us[i]));
        the_least_asked_is_found(t, w, us, q, i + 1);
    }
}

proof fn none_asked_is_found(t: super::Table, w: Seq<Option<Wish>>, us: Seq<Seq<char>>, i: int)
    requires
        0 <= i,
        forall|r: int| i <= r < us.len() ==> !resolve::asked_on(t, w, #[trigger] us[r]),
    ensures
        resolve::first_asked(t, w, us, i) is None,
    decreases us.len() - i,
{
    if i < us.len() {
        assert(!resolve::asked_on(t, w, us[i]));
        none_asked_is_found(t, w, us, i + 1);
    }
}

spec fn names_one(d: Seq<super::Fallback>, us: Seq<Seq<char>>, o: Outcome, j: int) -> bool {
    resolve::holds(o.names, o.vals, d[j].cond) && d[j].value is Str && us.contains(d[j].value->Str_0)
}

proof fn the_least_offer_is_found(d: Seq<super::Fallback>, us: Seq<Seq<char>>, o: Outcome, q: int, j: int)
    requires
        0 <= j <= q < d.len(),
        names_one(d, us, o, q),
        forall|r: int| j <= r < q ==> !#[trigger] names_one(d, us, o, r),
    ensures
        resolve::first_offered(d, us, o, j) == Some(d[q].value->Str_0),
    decreases q - j,
{
    if j < q {
        assert(!names_one(d, us, o, j));
        the_least_offer_is_found(d, us, o, q, j + 1);
    }
}

proof fn no_offer_is_found(d: Seq<super::Fallback>, us: Seq<Seq<char>>, o: Outcome, j: int)
    requires
        0 <= j,
        forall|r: int| j <= r < d.len() ==> !#[trigger] names_one(d, us, o, r),
    ensures
        resolve::first_offered(d, us, o, j) is None,
    decreases d.len() - j,
{
    if j < d.len() {
        assert(!names_one(d, us, o, j));
        no_offer_is_found(d, us, o, j + 1);
    }
}

/// What the lists that the rules search hold, said of the members themselves.
proof fn members_behind_usable(t: super::Table, asked: Seq<Ask>, o: Outcome, g: super::Group)
    requires
        super::well_formed(t),
        resolve::resolved(t, asked) is Ok,
        t.choices.contains(g),
    ensures
        ({
            let us = resolve::usable(t, o, g.members, g.members.len());
            let w = resolve::wishes(t, asked, asked.len());
            &&& forall|k: int| #![trigger g.members[k]] 0 <= k < g.members.len() ==> (us.contains(g.members[k]) <==> can_be(t, o, g.members[k]))
            &&& forall|q: int| #![trigger us[q]] 0 <= q < us.len() ==> can_be(t, o, us[q]) && g.members.contains(us[q])
            &&& forall|k: int| #![trigger g.members[k]]
                0 <= k < g.members.len() ==> (resolve::asked_on(t, w, g.members[k]) <==> wanted_on(t, asked, g.members[k]))
        }),
{
    let us = resolve::usable(t, o, g.members, g.members.len());
    let w = resolve::wishes(t, asked, asked.len());
    assert forall|q: int| #![trigger us[q]] 0 <= q < us.len() implies can_be(t, o, us[q]) && g.members.contains(us[q]) by {
        let i = usable_come_from(t, o, g.members, g.members.len(), q);
        let p = members_stand(t, g, i);
        can_be_is_usable(t, o, p);
    }
    assert forall|k: int| #![trigger g.members[k]] 0 <= k < g.members.len() implies (us.contains(g.members[k]) <==> can_be(
        t,
        o,
        g.members[k],
    )) by {
        let p = members_stand(t, g, k);
        can_be_is_usable(t, o, p);
        if can_be(t, o, g.members[k]) {
            usable_grows(t, o, g.members, k as nat, g.members.len());
            assert(us[resolve::usable(t, o, g.members, k as nat).len() as int] == g.members[k]);
        }
        if us.contains(g.members[k]) {
            let q = choose|q: int| 0 <= q < us.len() && us[q] == g.members[k];
            assert(can_be(t, o, us[q]));
        }
    }
    assert forall|k: int| #![trigger g.members[k]] 0 <= k < g.members.len() implies (resolve::asked_on(
        t,
        w,
        g.members[k],
    ) <==> wanted_on(t, asked, g.members[k])) by {
        let p = members_stand(t, g, k);
        wants_are_wishes(t, asked, p);
    }
}

/// Every element before where the member at `k` lands comes from a member before `k`.
proof fn earlier_usable(t: super::Table, o: Outcome, g: super::Group, k: int) -> (q: int)
    requires
        super::well_formed(t),
        t.choices.contains(g),
        0 <= k < g.members.len(),
        can_be(t, o, g.members[k]),
    ensures
        ({
            let us = resolve::usable(t, o, g.members, g.members.len());
            &&& 0 <= q < us.len()
            &&& us[q] == g.members[k]
            &&& forall|r: int| #![trigger us[r]]
                0 <= r < q ==> exists|i: int| 0 <= i < k && #[trigger] g.members[i] == us[r]
        }),
{
    let us = resolve::usable(t, o, g.members, g.members.len());
    let p = members_stand(t, g, k);
    can_be_is_usable(t, o, p);
    usable_grows(t, o, g.members, k as nat, g.members.len());
    let x = resolve::usable(t, o, g.members, k as nat);
    assert forall|r: int| #![trigger us[r]] 0 <= r < x.len() implies exists|i: int|
        0 <= i < k && #[trigger] g.members[i] == us[r] by {
        let i = usable_come_from(t, o, g.members, k as nat, r);
        assert(us[r] == x[r]);
        assert(g.members[i] == us[r]);
    }
    x.len() as int
}

/// The first member that was asked for is the one that is on, where the choice is part of the build
/// and the member's own dependencies are met.
pub proof fn the_member_asked_for_is_on(t: super::Table, asked: Seq<Ask>, c: int, k: int, p: int)
    requires
        super::well_formed(t),
        resolve::resolved(t, asked) is Ok,
        resolve::members_rest(t, resolve::resolved(t, asked)->Ok_0),
        0 <= c < t.choices.len(),
        met(resolve::resolved(t, asked)->Ok_0, t.choices[c].depends),
        asked_for(t, asked, resolve::resolved(t, asked)->Ok_0, t.choices[c], k),
        forall|i: int|
            0 <= i < k ==> !#[trigger] asked_for(t, asked, resolve::resolved(t, asked)->Ok_0, t.choices[c], i),
        0 <= p < t.symbols.len(),
        t.symbols[p].name == t.choices[c].members[k],
    ensures
        resolve::resolved(t, asked)->Ok_0.vals[p] == super::Value::Tri(Tri::Y),
{
    let o = resolve::resolved(t, asked)->Ok_0;
    let w = resolve::wishes(t, asked, asked.len());
    let g = t.choices[c];
    let us = resolve::usable(t, o, g.members, g.members.len());
    members_behind_usable(t, asked, o, g);
    let q = earlier_usable(t, o, g, k);
    assert forall|r: int| 0 <= r < q implies !resolve::asked_on(t, w, #[trigger] us[r]) by {
        let i = choose|i: int| 0 <= i < k && #[trigger] g.members[i] == us[r];
        assert(!asked_for(t, asked, o, g, i));
        assert(can_be(t, o, us[r]));
    }
    the_least_asked_is_found(t, w, us, q, 0);
    names_are_found(t, p, 0);
    resolve::choices_pick_exactly_one_in_the_end(t, asked, c);
}

/// Where no member that can be on was asked for, the first default that applies and names a member
/// that can be on decides.
pub proof fn the_member_a_default_names_is_on(t: super::Table, asked: Seq<Ask>, c: int, j: int, k: int, p: int)
    requires
        super::well_formed(t),
        resolve::resolved(t, asked) is Ok,
        resolve::members_rest(t, resolve::resolved(t, asked)->Ok_0),
        0 <= c < t.choices.len(),
        met(resolve::resolved(t, asked)->Ok_0, t.choices[c].depends),
        forall|i: int| !#[trigger] asked_for(t, asked, resolve::resolved(t, asked)->Ok_0, t.choices[c], i),
        offers(t, resolve::resolved(t, asked)->Ok_0, t.choices[c], j, k),
        forall|i: int, m: int|
            0 <= i < j ==> !#[trigger] offers(t, resolve::resolved(t, asked)->Ok_0, t.choices[c], i, m),
        0 <= p < t.symbols.len(),
        t.symbols[p].name == t.choices[c].members[k],
    ensures
        resolve::resolved(t, asked)->Ok_0.vals[p] == super::Value::Tri(Tri::Y),
{
    let o = resolve::resolved(t, asked)->Ok_0;
    let w = resolve::wishes(t, asked, asked.len());
    let g = t.choices[c];
    let us = resolve::usable(t, o, g.members, g.members.len());
    members_behind_usable(t, asked, o, g);
    nobody_wanted(t, asked, o, g);
    assert(g.members[k] == g.defaults[j].value->Str_0);
    assert(names_one(g.defaults, us, o, j));
    assert forall|r: int| 0 <= r < j implies !#[trigger] names_one(g.defaults, us, o, r) by {
        if names_one(g.defaults, us, o, r) {
            nothing_earlier_offered(t, o, g, us, r);
            let m = choose|m: int| offers(t, o, g, r, m);
            assert(offers(t, o, g, r, m));
        }
    }
    the_least_offer_is_found(g.defaults, us, o, j, 0);
    names_are_found(t, p, 0);
    resolve::choices_pick_exactly_one_in_the_end(t, asked, c);
}

proof fn nothing_earlier_offered(t: super::Table, o: Outcome, g: super::Group, us: Seq<Seq<char>>, r: int)
    requires
        0 <= r < g.defaults.len(),
        forall|q: int| #![trigger us[q]] 0 <= q < us.len() ==> can_be(t, o, us[q]) && g.members.contains(us[q]),
        names_one(g.defaults, us, o, r),
    ensures
        exists|m: int| offers(t, o, g, r, m),
{
    let v = g.defaults[r].value->Str_0;
    let q = choose|q: int| 0 <= q < us.len() && us[q] == v;
    assert(can_be(t, o, us[q]) && g.members.contains(us[q]));
    let m = choose|m: int| 0 <= m < g.members.len() && g.members[m] == v;
    assert(offers(t, o, g, r, m));
}

proof fn nobody_wanted(t: super::Table, asked: Seq<Ask>, o: Outcome, g: super::Group)
    requires
        super::well_formed(t),
        resolve::resolved(t, asked) is Ok,
        t.choices.contains(g),
        forall|i: int| !#[trigger] asked_for(t, asked, o, g, i),
    ensures
        resolve::first_asked(
            t,
            resolve::wishes(t, asked, asked.len()),
            resolve::usable(t, o, g.members, g.members.len()),
            0,
        ) is None,
{
    let w = resolve::wishes(t, asked, asked.len());
    let us = resolve::usable(t, o, g.members, g.members.len());
    members_behind_usable(t, asked, o, g);
    assert forall|r: int| 0 <= r < us.len() implies !resolve::asked_on(t, w, #[trigger] us[r]) by {
        let i = choose|i: int| 0 <= i < g.members.len() && g.members[i] == us[r];
        assert(!asked_for(t, asked, o, g, i));
    }
    none_asked_is_found(t, w, us, 0);
}

/// Where no member was asked for and no default names one, the first member whose dependencies are
/// met is on.
pub proof fn the_first_member_is_on(t: super::Table, asked: Seq<Ask>, c: int, k: int, p: int)
    requires
        super::well_formed(t),
        resolve::resolved(t, asked) is Ok,
        resolve::members_rest(t, resolve::resolved(t, asked)->Ok_0),
        0 <= c < t.choices.len(),
        met(resolve::resolved(t, asked)->Ok_0, t.choices[c].depends),
        forall|i: int| !#[trigger] asked_for(t, asked, resolve::resolved(t, asked)->Ok_0, t.choices[c], i),
        forall|i: int, m: int| !#[trigger] offers(t, resolve::resolved(t, asked)->Ok_0, t.choices[c], i, m),
        0 <= k < t.choices[c].members.len(),
        can_be(t, resolve::resolved(t, asked)->Ok_0, t.choices[c].members[k]),
        forall|i: int|
            0 <= i < k ==> !can_be(t, resolve::resolved(t, asked)->Ok_0, #[trigger] t.choices[c].members[i]),
        0 <= p < t.symbols.len(),
        t.symbols[p].name == t.choices[c].members[k],
    ensures
        resolve::resolved(t, asked)->Ok_0.vals[p] == super::Value::Tri(Tri::Y),
{
    let o = resolve::resolved(t, asked)->Ok_0;
    let g = t.choices[c];
    let us = resolve::usable(t, o, g.members, g.members.len());
    members_behind_usable(t, asked, o, g);
    nobody_wanted(t, asked, o, g);
    assert forall|r: int| 0 <= r < g.defaults.len() implies !#[trigger] names_one(g.defaults, us, o, r) by {
        if names_one(g.defaults, us, o, r) {
            nothing_earlier_offered(t, o, g, us, r);
            let m = choose|m: int| offers(t, o, g, r, m);
            assert(offers(t, o, g, r, m));
        }
    }
    no_offer_is_found(g.defaults, us, o, 0);
    let q = earlier_usable(t, o, g, k);
    if q > 0 {
        let i = choose|i: int| 0 <= i < k && #[trigger] g.members[i] == us[0];
        assert(can_be(t, o, us[0]));
    }
    names_are_found(t, p, 0);
    resolve::choices_pick_exactly_one_in_the_end(t, asked, c);
}

/// No member of a choice that is not part of the build is on, nor one whose own dependencies are not
/// met.
pub proof fn members_that_cannot_be_are_off(t: super::Table, asked: Seq<Ask>, c: int, k: int, p: int)
    requires
        super::well_formed(t),
        resolve::resolved(t, asked) is Ok,
        resolve::members_rest(t, resolve::resolved(t, asked)->Ok_0),
        0 <= c < t.choices.len(),
        0 <= k < t.choices[c].members.len(),
        0 <= p < t.symbols.len(),
        t.symbols[p].name == t.choices[c].members[k],
        !met(resolve::resolved(t, asked)->Ok_0, t.choices[c].depends) || !met(
            resolve::resolved(t, asked)->Ok_0,
            t.symbols[p].depends,
        ),
    ensures
        super::truth(resolve::resolved(t, asked)->Ok_0.vals[p]) == Tri::N,
{
    let o = resolve::resolved(t, asked)->Ok_0;
    let g = t.choices[c];
    names_are_found(t, p, 0);
    assert(super::belongs(t, t.choices[c].members[k], t.choices[c].name));
    resolve::choices_pick_exactly_one_in_the_end(t, asked, c);
}

/// Every symbol outside a choice records who decided it: the last request for it, the first symbol
/// that forces it on, the condition that keeps it out, a default, or nothing.
pub proof fn reasons_name_who_decided(t: super::Table, asked: Seq<Ask>, i: int, a: int, s: int, j: int, k: int)
    requires
        super::well_formed(t),
        resolve::resolved(t, asked) is Ok,
        resolve::members_rest(t, resolve::resolved(t, asked)->Ok_0),
        0 <= i < t.symbols.len(),
        t.symbols[i].choice is None,
    ensures
        ({
            let o = resolve::resolved(t, asked)->Ok_0;
            let x = t.symbols[i];
            let d = x.defaults;
            &&& !met(o, x.depends) <==> o.causes[i] is DependsUnmet
            &&& !met(o, x.depends) ==> o.causes[i] == Cause::DependsUnmet(expr::shown(x.depends->0))
            &&& met(o, x.depends) && last_asked(t, asked, i, a) ==> o.causes[i] == Cause::Explicit(asked[a].source)
            &&& met(o, x.depends) && unasked(t, asked, i) && forces(t, o, s, j, i) && (forall|r: int, q: int|
                0 <= r < s ==> !#[trigger] forces(t, o, r, q, i)) ==> o.causes[i] == Cause::SelectedBy(t.symbols[s].name)
            &&& met(o, x.depends) && unasked(t, asked, i) && unforced(t, o, i) && 0 <= k < d.len() && met(o, d[k].cond)
                ==> o.causes[i] == Cause::Default
            &&& met(o, x.depends) && unasked(t, asked, i) && unforced(t, o, i) && (forall|q: int|
                0 <= q < d.len() ==> !met(o, (#[trigger] d[q]).cond)) ==> o.causes[i] == Cause::Unset
        }),
{
    let o = resolve::resolved(t, asked)->Ok_0;
    let x = t.symbols[i];
    resolve::symbols_give_their_reasons(t, asked, i);
    if met(o, x.depends) {
        if last_asked(t, asked, i, a) {
            the_last_request_is_the_wish(x, asked, a, asked.len());
        }
        if unasked(t, asked, i) {
            nobody_asked(x, asked, asked.len());
            if forces(t, o, s, j, i) && (forall|r: int, q: int| 0 <= r < s ==> !#[trigger] forces(t, o, r, q, i)) {
                something_selects(t, o, i, s, j, 0);
            }
            if unforced(t, o, i) {
                nothing_selects(t, o, i, 0);
                if 0 <= k < x.defaults.len() && met(o, x.defaults[k].cond) {
                    let q = the_first_that_is_met(x.defaults, o, k, 0);
                    the_least_default_is_found(x.defaults, o, q, 0);
                }
                if forall|q: int| 0 <= q < x.defaults.len() ==> !met(o, (#[trigger] x.defaults[q]).cond) {
                    no_default_is_found(x.defaults, o, 0);
                }
            }
        }
    }
}

proof fn the_first_that_is_met(d: Seq<super::Fallback>, o: Outcome, k: int, j: int) -> (q: int)
    requires
        0 <= j <= k < d.len(),
        met(o, d[k].cond),
    ensures
        j <= q <= k,
        met(o, d[q].cond),
        forall|i: int| j <= i < q ==> !met(o, (#[trigger] d[i]).cond),
    decreases k - j,
{
    if met(o, d[j].cond) {
        j
    } else {
        the_first_that_is_met(d, o, k, j + 1)
    }
}

/// Whether a request may be made: it names a symbol that may be set, and gives it a value of its kind.
pub open spec fn may_be_asked(t: super::Table, a: Ask) -> bool {
    exists|i: int|
        {
            &&& 0 <= i < t.symbols.len()
            &&& (#[trigger] t.symbols[i]).name == a.symbol
            &&& !t.symbols[i].readonly
            &&& parse::value_of(a.text, t.symbols[i].kind) is Ok
        }
}

pub(crate) proof fn sound_requests_have_no_fault(t: super::Table, asked: Seq<Ask>, k: nat)
    requires
        super::well_formed(t),
        k <= asked.len(),
        forall|a: int| 0 <= a < asked.len() ==> may_be_asked(t, #[trigger] asked[a]),
    ensures
        resolve::ask_faults(t, asked, k).len() == 0,
    decreases k,
{
    if k > 0 {
        let x = asked[k - 1];
        assert(may_be_asked(t, x));
        let i = choose|i: int|
            {
                &&& 0 <= i < t.symbols.len()
                &&& (#[trigger] t.symbols[i]).name == x.symbol
                &&& !t.symbols[i].readonly
                &&& parse::value_of(x.text, t.symbols[i].kind) is Ok
            };
        names_are_found(t, i, 0);
        sound_requests_have_no_fault(t, asked, (k - 1) as nat);
    }
}

/// Whether the symbol at `i` has what was asked of it, and what was asked can be: nothing forces on
/// what was asked to be off, and a module was asked for only where modules exist.
pub open spec fn request_met(t: super::Table, asked: Seq<Ask>, o: Outcome, i: int, a: int) -> bool {
    let want = parse::value_of(asked[a].text, t.symbols[i].kind)->Ok_0;
    &&& o.vals[i] == want
    &&& super::truth(want) == Tri::N ==> unforced(t, o, i)
    &&& want == super::Value::Tri(Tri::M) ==> resolve::tri_in(o.names, o.vals, MODULES@) == Tri::Y
}

proof fn met_requests_have_no_fault(t: super::Table, asked: Seq<Ask>, o: Outcome, k: nat)
    requires
        k <= t.symbols.len(),
        forall|i: int, a: int|
            0 <= i < t.symbols.len() && #[trigger] last_asked(t, asked, i, a) ==> request_met(t, asked, o, i, a),
    ensures
        resolve::set_faults(t, resolve::wishes(t, asked, asked.len()), o, k).len() == 0,
    decreases k,
{
    if k > 0 {
        let i = k - 1;
        met_requests_have_no_fault(t, asked, o, i as nat);
        if resolve::wish(t.symbols[i], asked, asked.len()) is Some {
            let a = a_wish_has_a_request(t.symbols[i], asked, asked.len());
            the_last_request_is_the_wish(t.symbols[i], asked, a, asked.len());
            assert(last_asked(t, asked, i, a));
            if unforced(t, o, i) {
                nothing_selects(t, o, i, 0);
            }
        }
    }
}

/// Whether the number of the symbol at `i` lies between the bounds of the first of its ranges that
/// applies, if one does.
pub open spec fn range_met(t: super::Table, o: Outcome, i: int) -> bool {
    forall|k: int| #![trigger t.symbols[i].ranges[k]]
        0 <= k < t.symbols[i].ranges.len() && met(o, t.symbols[i].ranges[k].cond) && (forall|j: int|
            0 <= j < k ==> !met(o, (#[trigger] t.symbols[i].ranges[j]).cond)) ==> match o.vals[i] {
            super::Value::Int(n) => t.symbols[i].ranges[k].lo <= n <= t.symbols[i].ranges[k].hi,
            super::Value::Hex(n) => t.symbols[i].ranges[k].lo <= n <= t.symbols[i].ranges[k].hi,
            _ => true,
        }
}

proof fn a_range_that_applies_stands(r: Seq<super::Span>, o: Outcome, j: int) -> (k: int)
    requires
        0 <= j,
        resolve::active_span(r, o, j) is Some,
    ensures
        j <= k < r.len(),
        met(o, r[k].cond),
        resolve::active_span(r, o, j) == Some(r[k]),
        forall|i: int| j <= i < k ==> !met(o, (#[trigger] r[i]).cond),
    decreases r.len() - j,
{
    if met(o, r[j].cond) {
        j
    } else {
        a_range_that_applies_stands(r, o, j + 1)
    }
}

proof fn met_ranges_have_no_fault(t: super::Table, o: Outcome, k: nat)
    requires
        k <= t.symbols.len(),
        forall|i: int| 0 <= i < t.symbols.len() ==> #[trigger] range_met(t, o, i) || o.causes[i] is DependsUnmet,
    ensures
        resolve::range_faults(t, o, k).len() == 0,
    decreases k,
{
    if k > 0 {
        let i = k - 1;
        met_ranges_have_no_fault(t, o, i as nat);
        let r = t.symbols[i].ranges;
        assert(range_met(t, o, i) || o.causes[i] is DependsUnmet);
        if resolve::active_span(r, o, 0) is Some {
            let q = a_range_that_applies_stands(r, o, 0);
            assert(t.symbols[i].ranges[q] == r[q]);
        }
    }
}

proof fn known_selects_have_no_fault(t: super::Table, s: super::Sym, k: nat)
    requires
        k <= s.selects.len(),
        forall|j: int|
            0 <= j < s.selects.len() ==> exists|i: int|
                0 <= i < t.symbols.len() && (#[trigger] t.symbols[i]).name == (#[trigger] s.selects[j]).target,
    ensures
        resolve::unknown_selects(t, s, k).len() == 0,
    decreases k,
{
    if k > 0 {
        known_selects_have_no_fault(t, s, (k - 1) as nat);
        let target = s.selects[k - 1].target;
        found_names_are_there(t, target, 0);
    }
}

proof fn all_selects_have_no_fault(t: super::Table, k: nat)
    requires
        k <= t.symbols.len(),
        forall|s: int, j: int|
            0 <= s < t.symbols.len() && 0 <= j < t.symbols[s].selects.len() ==> exists|i: int|
                0 <= i < t.symbols.len() && (#[trigger] t.symbols[i]).name == (#[trigger] t.symbols[s].selects[j]).target,
    ensures
        resolve::select_faults(t, k).len() == 0,
    decreases k,
{
    if k > 0 {
        all_selects_have_no_fault(t, (k - 1) as nat);
        let s = t.symbols[k - 1];
        assert forall|j: int| 0 <= j < s.selects.len() implies exists|i: int|
            0 <= i < t.symbols.len() && (#[trigger] t.symbols[i]).name == (#[trigger] s.selects[j]).target by {
            assert(t.symbols[k - 1].selects[j] == s.selects[j]);
        }
        known_selects_have_no_fault(t, s, s.selects.len());
    }
}

/// Nothing else keeps a configuration from resolving: where every request may be made and comes to
/// rest at `o`, and there every request is met, every number is in range and every `select` names a
/// symbol, `o` is the configuration.
pub proof fn sound_requests_resolve(t: super::Table, asked: Seq<Ask>, o: Outcome)
    requires
        super::well_formed(t),
        forall|a: int| 0 <= a < asked.len() ==> may_be_asked(t, #[trigger] asked[a]),
        resolve::settled(
            t,
            resolve::wishes(t, asked, asked.len()),
            resolve::start(t),
            resolve::MAX_ROUNDS as nat,
        ) == Some(o),
        forall|i: int, a: int|
            0 <= i < t.symbols.len() && #[trigger] last_asked(t, asked, i, a) ==> request_met(t, asked, o, i, a),
        forall|i: int| 0 <= i < t.symbols.len() ==> #[trigger] range_met(t, o, i) || o.causes[i] is DependsUnmet,
        forall|s: int, j: int|
            0 <= s < t.symbols.len() && 0 <= j < t.symbols[s].selects.len() ==> exists|i: int|
                0 <= i < t.symbols.len() && (#[trigger] t.symbols[i]).name == (#[trigger] t.symbols[s].selects[j]).target,
    ensures
        resolve::resolved(t, asked) == Ok::<Outcome, Seq<resolve::Fault>>(o),
{
    sound_requests_have_no_fault(t, asked, asked.len());
    met_requests_have_no_fault(t, asked, o, t.symbols.len());
    met_ranges_have_no_fault(t, o, t.symbols.len());
    all_selects_have_no_fault(t, t.symbols.len());
}

proof fn the_nearest_is_least(names: Seq<Seq<char>>, name: Seq<char>, k: nat, i: int)
    requires
        k <= names.len(),
        0 <= i < k,
    ensures
        match resolve::nearest_of(names, name, k) {
            Some((d, n)) => d <= 3 && d <= resolve::edits(name, names[i], name.len(), names[i].len()) && d
                == resolve::edits(name, n, name.len(), n.len()) && names.contains(n),
            None => resolve::edits(name, names[i], name.len(), names[i].len()) > 3,
        },
    decreases k,
{
    if k > 1 {
        if i < k - 1 {
            the_nearest_is_least(names, name, (k - 1) as nat, i);
        } else {
            the_nearest_is_least(names, name, (k - 1) as nat, 0);
        }
    } else {
        assert(resolve::nearest_of(names, name, 0) is None);
    }
    assert(names[k - 1] == names[k - 1]);
    assert(names.contains(names[k - 1]));
}

/// The suggestion for a name that no symbol has is a symbol's name, at most three edits away and no
/// further than any other's; where every name is further, none is made.
pub proof fn the_nearest_name_is_suggested(t: super::Table, name: Seq<char>, i: int)
    requires
        0 <= i < t.symbols.len(),
    ensures
        match resolve::nearest_of(resolve::names_of(t), name, t.symbols.len()) {
            Some((d, n)) => {
                &&& d <= 3
                &&& d == resolve::edits(name, n, name.len(), n.len())
                &&& d <= resolve::edits(name, t.symbols[i].name, name.len(), t.symbols[i].name.len())
                &&& exists|j: int| 0 <= j < t.symbols.len() && (#[trigger] t.symbols[j]).name == n
            },
            None => resolve::edits(name, t.symbols[i].name, name.len(), t.symbols[i].name.len()) > 3,
        },
{
    let names = resolve::names_of(t);
    the_nearest_is_least(names, name, t.symbols.len(), i);
    if let Some((d, n)) = resolve::nearest_of(names, name, t.symbols.len()) {
        let j = choose|j: int| 0 <= j < names.len() && names[j] == n;
        assert(t.symbols[j].name == n);
    }
}

/// The edits between two names are as many either way.
pub proof fn edits_go_both_ways(a: Seq<char>, b: Seq<char>, i: nat, j: nat)
    ensures
        resolve::edits(a, b, i, j) == resolve::edits(b, a, j, i),
    decreases i + j,
{
    if i > 0 && j > 0 {
        edits_go_both_ways(a, b, (i - 1) as nat, j);
        edits_go_both_ways(a, b, i, (j - 1) as nat);
        edits_go_both_ways(a, b, (i - 1) as nat, (j - 1) as nat);
    }
}

/// One more character on either side is at most one more edit, and at most one fewer.
pub proof fn one_character_is_one_edit(a: Seq<char>, b: Seq<char>, i: nat, j: nat)
    ensures
        -1 <= resolve::edits(a, b, i + 1, j) - resolve::edits(a, b, i, j) <= 1,
        -1 <= resolve::edits(a, b, i, j + 1) - resolve::edits(a, b, i, j) <= 1,
        resolve::edits(a, b, i + 1, j + 1) <= resolve::edits(a, b, i, j) + 1,
        resolve::edits(a, b, i, 0) == i,
    decreases i + j,
{
    if i > 0 {
        one_character_is_one_edit(a, b, (i - 1) as nat, j);
    }
    if j > 0 {
        one_character_is_one_edit(a, b, i, (j - 1) as nat);
    }
    assert(resolve::edits(a, b, i + 1, j + 1) <= resolve::edits(a, b, i, j) + 1);
}

/// An explanation starts with the symbol's own reason and goes on with that of the symbol that
/// selects it.
pub proof fn explanations_follow_selects(o: Outcome, i: int, left: nat)
    requires
        0 <= i < o.names.len(),
        forall|j: int| 0 <= j < i ==> o.names[j] != o.names[i],
    ensures
        ({
            let e = resolve::explanation(o, o.names[i], left);
            &&& e.len() > 0
            &&& e[0] == resolve::described(o.causes[i], o.names[i])
            &&& match o.causes[i] {
                Cause::SelectedBy(by) => left > 0 ==> e.subrange(1, e.len() as int) == resolve::explanation(
                    o,
                    by,
                    (left - 1) as nat,
                ),
                _ => e.len() == 1,
            }
        }),
{
    first_names_are_found(o.names, i, 0);
    let e = resolve::explanation(o, o.names[i], left);
    if let Cause::SelectedBy(by) = o.causes[i] {
        if left > 0 {
            assert(e.subrange(1, e.len() as int) =~= resolve::explanation(o, by, (left - 1) as nat));
        }
    }
}

proof fn first_names_are_found(names: Seq<Seq<char>>, i: int, from: int)
    requires
        0 <= from <= i < names.len(),
        forall|j: int| from <= j < i ==> names[j] != names[i],
    ensures
        resolve::found(names, names[i], from) == Some(i),
    decreases i - from,
{
    if from < i {
        first_names_are_found(names, i, from + 1);
    }
}

proof fn missing_names_are_not_found(names: Seq<Seq<char>>, name: Seq<char>, from: int)
    requires
        0 <= from,
        forall|j: int| from <= j < names.len() ==> names[j] != name,
    ensures
        resolve::found(names, name, from) is None,
    decreases names.len() - from,
{
    if from < names.len() {
        missing_names_are_not_found(names, name, from + 1);
    }
}

/// What a configuration says of a symbol is what stands at the symbol's place: on for anything but
/// `n`, zero and the empty text. A name that is not there is off and empty.
pub proof fn readings_are_of_the_named_symbol(o: Outcome, name: Seq<char>, i: int)
    ensures
        ({
            let there = 0 <= i < o.names.len() && o.names[i] == name && (forall|j: int| 0 <= j < i ==> o.names[j] != name);
            &&& there ==> resolve::tri_in(o.names, o.vals, name) == match o.vals[i] {
                super::Value::Tri(x) => x,
                super::Value::Int(n) => if n == 0 {
                    Tri::N
                } else {
                    Tri::Y
                },
                super::Value::Hex(n) => if n == 0 {
                    Tri::N
                } else {
                    Tri::Y
                },
                super::Value::Str(x) => if x.len() == 0 {
                    Tri::N
                } else {
                    Tri::Y
                },
            }
            &&& there && o.vals[i] is Str ==> resolve::lit_in(o.names, o.vals, name) == o.vals[i]->Str_0
                && resolve::str_in(o, name) == o.vals[i]->Str_0
            &&& there && o.vals[i] is Int ==> resolve::int_in(o, name) == o.vals[i]->Int_0
            &&& (forall|j: int| 0 <= j < o.names.len() ==> o.names[j] != name) ==> resolve::tri_in(o.names, o.vals, name)
                == Tri::N && resolve::lit_in(o.names, o.vals, name).len() == 0 && resolve::int_in(o, name) == 0
        }),
{
    if 0 <= i < o.names.len() && o.names[i] == name && (forall|j: int| 0 <= j < i ==> o.names[j] != name) {
        first_names_are_found(o.names, i, 0);
    }
    if forall|j: int| 0 <= j < o.names.len() ==> o.names[j] != name {
        missing_names_are_not_found(o.names, name, 0);
    }
}

/// `&&` is no more than its lesser operand, `||` no less than its greater one, and `!` turns `y` and `n`
/// round and leaves `m`: with `y` an `&&` is its other operand and with `n` it is `n`; with `n` an `||`
/// is its other operand and with `y` it is `y`.
pub proof fn three_values_combine(a: Tri)
    ensures
        expr::tri_and(Tri::Y, a) == a,
        expr::tri_and(a, Tri::Y) == a,
        expr::tri_and(Tri::N, a) == Tri::N,
        expr::tri_and(a, Tri::N) == Tri::N,
        expr::tri_and(a, a) == a,
        expr::tri_or(Tri::N, a) == a,
        expr::tri_or(a, Tri::N) == a,
        expr::tri_or(Tri::Y, a) == Tri::Y,
        expr::tri_or(a, Tri::Y) == Tri::Y,
        expr::tri_or(a, a) == a,
        expr::tri_not(Tri::Y) == Tri::N,
        expr::tri_not(Tri::N) == Tri::Y,
        expr::tri_not(Tri::M) == Tri::M,
{
}

/// What an expression is worth in a configuration: a conjunction is on where both sides are, a
/// disjunction where either is, a negation is `n` exactly where its operand is `y`, and a comparison is
/// `y` or `n` by what the symbol reads as.
pub proof fn expressions_are_worth(o: Outcome, x: expr::Cond, y: expr::Cond, s: Seq<char>, v: Seq<char>)
    ensures
        ({
            let worth = |e: expr::Cond| resolve::eval_in(o.names, o.vals, e);
            let both = expr::Cond::And(Box::new(x), Box::new(y));
            let either = expr::Cond::Or(Box::new(x), Box::new(y));
            let other = expr::Cond::Not(Box::new(x));
            &&& worth(both) != Tri::N <==> worth(x) != Tri::N && worth(y) != Tri::N
            &&& worth(both) == Tri::Y <==> worth(x) == Tri::Y && worth(y) == Tri::Y
            &&& worth(either) != Tri::N <==> worth(x) != Tri::N || worth(y) != Tri::N
            &&& worth(either) == Tri::Y <==> worth(x) == Tri::Y || worth(y) == Tri::Y
            &&& worth(other) == Tri::N <==> worth(x) == Tri::Y
            &&& worth(other) == Tri::Y <==> worth(x) == Tri::N
            &&& worth(expr::Cond::Sym(s)) == resolve::tri_in(o.names, o.vals, s)
            &&& worth(expr::Cond::Eq(s, v)) == Tri::Y <==> resolve::lit_in(o.names, o.vals, s) == v
            &&& worth(expr::Cond::Eq(s, v)) == Tri::N <==> resolve::lit_in(o.names, o.vals, s) != v
            &&& worth(expr::Cond::Ne(s, v)) == Tri::Y <==> resolve::lit_in(o.names, o.vals, s) != v
            &&& worth(expr::Cond::Ne(s, v)) == Tri::N <==> resolve::lit_in(o.names, o.vals, s) == v
        }),
{
    reveal_with_fuel(expr::worth, 2);
}

} // verus!
