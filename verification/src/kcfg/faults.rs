//! What is said where a configuration cannot be, said of the requests and the symbols themselves.

use vstd::prelude::*;
use vstd::string::*;

use super::expr::Tri;
use super::parse;
use super::resolve;
use super::resolve::Ask;
use super::resolve::Fault;
use super::resolve::Outcome;
use super::rules;
use crate::readings;
use crate::text;

verus! {

/// Whether one of the faults says so.
pub open spec fn said(faults: Seq<Fault>, msg: Seq<char>) -> bool {
    exists|k: int| 0 <= k < faults.len() && (#[trigger] faults[k]).msg == msg
}

proof fn request_faults_are_said(t: super::Table, asked: Seq<Ask>, a: int, k: nat)
    requires
        0 <= a < k <= asked.len(),
        resolve::ask_fault(t, asked[a]) is Some,
    ensures
        resolve::ask_faults(t, asked, k).contains(resolve::ask_fault(t, asked[a])->0),
    decreases k,
{
    let all = resolve::ask_faults(t, asked, k);
    let before = resolve::ask_faults(t, asked, (k - 1) as nat);
    let f = resolve::ask_fault(t, asked[a])->0;
    if a == k - 1 {
        assert(all[before.len() as int] == f);
    } else {
        request_faults_are_said(t, asked, a, (k - 1) as nat);
        let q = before.index_of(f);
        assert(all[q] == f);
    }
}

proof fn names_are_missing(t: super::Table, name: Seq<char>, from: int)
    requires
        0 <= from,
        forall|i: int| 0 <= i < t.symbols.len() ==> (#[trigger] t.symbols[i]).name != name,
    ensures
        super::sym_from(t.symbols, name, from) is None,
    decreases t.symbols.len() - from,
{
    if from < t.symbols.len() {
        assert(t.symbols[from].name != name);
        names_are_missing(t, name, from + 1);
    }
}

/// A request for a symbol that does not exist is refused, with the symbol and who asked for it.
pub proof fn unknown_symbols_are_refused(t: super::Table, asked: Seq<Ask>, a: int)
    requires
        0 <= a < asked.len(),
        forall|i: int| 0 <= i < t.symbols.len() ==> (#[trigger] t.symbols[i]).name != asked[a].symbol,
    ensures
        ({
            let r = resolve::resolved(t, asked);
            &&& r is Err
            &&& exists|k: int|
                0 <= k < r->Err_0.len() && (#[trigger] r->Err_0[k]).msg == "unknown configuration symbol `"@
                    + asked[a].symbol + "`"@ && r->Err_0[k].chain == seq!["requested by "@ + asked[a].source]
        }),
{
    names_are_missing(t, asked[a].symbol, 0);
    request_faults_are_said(t, asked, a, asked.len());
    let f = resolve::ask_fault(t, asked[a])->0;
    let all = resolve::ask_faults(t, asked, asked.len());
    let q = all.index_of(f);
    assert(all[q] == f);
    let r = resolve::resolved(t, asked);
    assert(r->Err_0 == all);
    assert(f.msg == "unknown configuration symbol `"@ + asked[a].symbol + "`"@);
    assert(f.chain == seq!["requested by "@ + asked[a].source]);
    assert(r->Err_0[q] == f);
}

/// A request for a symbol that cannot be set, or with a value that is none of its kind, is refused.
pub proof fn requests_that_cannot_be_are_refused(t: super::Table, asked: Seq<Ask>, a: int, i: int)
    requires
        super::well_formed(t),
        0 <= a < asked.len(),
        0 <= i < t.symbols.len(),
        t.symbols[i].name == asked[a].symbol,
    ensures
        ({
            let r = resolve::resolved(t, asked);
            let v = parse::value_of(asked[a].text, t.symbols[i].kind);
            let name = asked[a].symbol;
            &&& t.symbols[i].readonly ==> r is Err && said(r->Err_0, "`"@ + name + "` is not user-settable"@)
            &&& !t.symbols[i].readonly && v is Err ==> r is Err && said(
                r->Err_0,
                "bad value for `"@ + name + "`: "@ + v->Err_0,
            )
        }),
{
    rules::names_are_found(t, i, 0);
    let v = parse::value_of(asked[a].text, t.symbols[i].kind);
    if t.symbols[i].readonly || v is Err {
        request_faults_are_said(t, asked, a, asked.len());
        let f = resolve::ask_fault(t, asked[a])->0;
        let all = resolve::ask_faults(t, asked, asked.len());
        let q = all.index_of(f);
        assert(all[q] == f);
    }
}

proof fn setting_faults_are_said(t: super::Table, w: Seq<Option<resolve::Wish>>, o: Outcome, i: int, k: nat)
    requires
        0 <= i < k <= t.symbols.len(),
        resolve::set_fault(t, w, o, i) is Some,
    ensures
        resolve::set_faults(t, w, o, k).contains(resolve::set_fault(t, w, o, i)->0),
    decreases k,
{
    let all = resolve::set_faults(t, w, o, k);
    let before = resolve::set_faults(t, w, o, (k - 1) as nat);
    let f = resolve::set_fault(t, w, o, i)->0;
    if i == k - 1 {
        assert(all[before.len() as int] == f);
    } else {
        setting_faults_are_said(t, w, o, i, (k - 1) as nat);
        let q = before.index_of(f);
        assert(all[q] == f);
    }
}

/// What is selected cannot be switched off: the request is refused, with the first symbol that selects it and
/// the advice to switch that off before.
pub proof fn the_selected_cannot_be_switched_off(
    t: super::Table,
    asked: Seq<Ask>,
    o: Outcome,
    i: int,
    a: int,
    s: int,
    j: int,
)
    requires
        super::well_formed(t),
        forall|b: int| 0 <= b < asked.len() ==> rules::may_be_asked(t, #[trigger] asked[b]),
        resolve::settled(
            t,
            resolve::wishes(t, asked, asked.len()),
            resolve::start(t),
            resolve::MAX_ROUNDS as nat,
        ) == Some(o),
        0 <= i < t.symbols.len(),
        rules::last_asked(t, asked, i, a),
        parse::value_of(asked[a].text, t.symbols[i].kind) == Ok::<super::Value, Seq<char>>(super::Value::Tri(Tri::N)),
        rules::forces(t, o, s, j, i),
        forall|r: int, k: int| 0 <= r < s ==> !#[trigger] rules::forces(t, o, r, k, i),
    ensures
        ({
            let r = resolve::resolved(t, asked);
            let (name, by) = (t.symbols[i].name, t.symbols[s].name);
            &&& r is Err
            &&& exists|k: int|
                {
                    &&& 0 <= k < r->Err_0.len()
                    &&& (#[trigger] r->Err_0[k]).msg == "cannot set "@ + name + "="@ + seq!['n']
                    &&& r->Err_0[k].chain.len() == 2
                    &&& r->Err_0[k].chain[0] == name + " is selected by "@ + by
                    &&& r->Err_0[k].hint == Some("to disable "@ + name + ", first disable "@ + by)
                }
        }),
{
    let w = resolve::wishes(t, asked, asked.len());
    rules::sound_requests_have_no_fault(t, asked, asked.len());
    rules::the_last_request_is_the_wish(t.symbols[i], asked, a, asked.len());
    rules::something_selects(t, o, i, s, j, 0);
    assert(w[i]->0.value == super::Value::Tri(Tri::N));
    assert(resolve::selectors(t, o.names, o.vals)[i] == Some(t.symbols[s].name));
    let f = resolve::set_fault(t, w, o, i)->0;
    setting_faults_are_said(t, w, o, i, t.symbols.len());
    setting_faults_lead(t, w, o, f);
    let all = resolve::all_faults(t, w, o);
    let k = choose|k: int| 0 <= k < all.len() && #[trigger] all[k] == f;
    let r = resolve::resolved(t, asked);
    assert(r->Err_0 == all);
    let (name, by) = (t.symbols[i].name, t.symbols[s].name);
    assert(f.msg == "cannot set "@ + name + "="@ + seq!['n']);
    assert(f.chain[0] == name + " is selected by "@ + by);
    assert(f.hint == Some("to disable "@ + name + ", first disable "@ + by));
    assert(r->Err_0[k] == f);
}

proof fn setting_faults_lead(t: super::Table, w: Seq<Option<resolve::Wish>>, o: Outcome, f: Fault)
    requires
        resolve::set_faults(t, w, o, t.symbols.len()).contains(f),
    ensures
        exists|k: int| 0 <= k < resolve::all_faults(t, w, o).len() && #[trigger] resolve::all_faults(t, w, o)[k] == f,
{
    let n = t.symbols.len();
    let some = resolve::set_faults(t, w, o, n);
    let q = some.index_of(f);
    let all = resolve::all_faults(t, w, o);
    assert(all == some + resolve::range_faults(t, o, n) + resolve::select_faults(t, n));
    assert(all[q] == some[q]);
}

proof fn unknown_targets_are_said(t: super::Table, s: super::Sym, j: int, k: nat)
    requires
        0 <= j < k <= s.selects.len(),
        forall|i: int| 0 <= i < t.symbols.len() ==> (#[trigger] t.symbols[i]).name != s.selects[j].target,
    ensures
        said(resolve::unknown_selects(t, s, k), s.name + " selects unknown symbol `"@ + s.selects[j].target + "`"@),
    decreases k,
{
    let all = resolve::unknown_selects(t, s, k);
    let before = resolve::unknown_selects(t, s, (k - 1) as nat);
    let msg = s.name + " selects unknown symbol `"@ + s.selects[j].target + "`"@;
    if j == k - 1 {
        names_are_missing(t, s.selects[j].target, 0);
        assert(all[before.len() as int].msg == msg);
    } else {
        unknown_targets_are_said(t, s, j, (k - 1) as nat);
        let q = choose|q: int| 0 <= q < before.len() && (#[trigger] before[q]).msg == msg;
        assert(all[q].msg == msg);
    }
}

proof fn select_faults_are_said(t: super::Table, i: int, k: nat, msg: Seq<char>)
    requires
        0 <= i < k <= t.symbols.len(),
        said(resolve::unknown_selects(t, t.symbols[i], t.symbols[i].selects.len()), msg),
    ensures
        said(resolve::select_faults(t, k), msg),
    decreases k,
{
    let all = resolve::select_faults(t, k);
    let before = resolve::select_faults(t, (k - 1) as nat);
    let own = resolve::unknown_selects(t, t.symbols[k - 1], t.symbols[k - 1].selects.len());
    if i == k - 1 {
        let q = choose|q: int| 0 <= q < own.len() && (#[trigger] own[q]).msg == msg;
        assert(all[before.len() + q].msg == msg);
    } else {
        select_faults_are_said(t, i, (k - 1) as nat, msg);
        let q = choose|q: int| 0 <= q < before.len() && (#[trigger] before[q]).msg == msg;
        assert(all[q].msg == msg);
    }
}

/// A table in which a symbol selects one that does not exist is refused, with both names.
pub proof fn unknown_selects_are_refused(t: super::Table, asked: Seq<Ask>, o: Outcome, s: int, j: int)
    requires
        super::well_formed(t),
        forall|b: int| 0 <= b < asked.len() ==> rules::may_be_asked(t, #[trigger] asked[b]),
        resolve::settled(
            t,
            resolve::wishes(t, asked, asked.len()),
            resolve::start(t),
            resolve::MAX_ROUNDS as nat,
        ) == Some(o),
        0 <= s < t.symbols.len(),
        0 <= j < t.symbols[s].selects.len(),
        forall|i: int| 0 <= i < t.symbols.len() ==> (#[trigger] t.symbols[i]).name != t.symbols[s].selects[j].target,
    ensures
        resolve::resolved(t, asked) is Err,
        said(
            resolve::resolved(t, asked)->Err_0,
            t.symbols[s].name + " selects unknown symbol `"@ + t.symbols[s].selects[j].target + "`"@,
        ),
{
    let n = t.symbols.len();
    let w = resolve::wishes(t, asked, asked.len());
    let msg = t.symbols[s].name + " selects unknown symbol `"@ + t.symbols[s].selects[j].target + "`"@;
    rules::sound_requests_have_no_fault(t, asked, asked.len());
    unknown_targets_are_said(t, t.symbols[s], j, t.symbols[s].selects.len());
    select_faults_are_said(t, s, n, msg);
    let own = resolve::select_faults(t, n);
    let q = choose|q: int| 0 <= q < own.len() && (#[trigger] own[q]).msg == msg;
    let front = resolve::set_faults(t, w, o, n) + resolve::range_faults(t, o, n);
    let all = resolve::all_faults(t, w, o);
    assert(all =~= front + own);
    assert(all[front.len() + q].msg == msg);
}

/// Of the symbols that a dependency names, those that are off are told, the first of them first and no more
/// than three.
pub proof fn what_is_off_is_told(o: Outcome, syms: Seq<Seq<char>>, k: nat, a: int)
    requires
        0 <= a < k <= syms.len(),
        resolve::tri_in(o.names, o.vals, syms[a]) == Tri::N,
        forall|j: int| 0 <= j < a ==> resolve::tri_in(o.names, o.vals, #[trigger] syms[j]) != Tri::N,
    ensures
        ({
            let links = resolve::off_links(o, syms, k);
            &&& 1 <= links.len() <= 3
            &&& links[0] == syms[a] + " is "@ + seq!['n']
            &&& forall|q: int| 0 <= q < links.len() ==> is_off(o, syms, k, #[trigger] links[q])
        }),
    decreases k,
{
    let links = resolve::off_links(o, syms, k);
    let before = resolve::off_links(o, syms, (k - 1) as nat);
    if a == k - 1 {
        nothing_is_off(o, syms, a as nat);
    } else {
        what_is_off_is_told(o, syms, (k - 1) as nat, a);
    }
    let x = syms[k - 1];
    if before.len() < 3 && resolve::tri_in(o.names, o.vals, x) == Tri::N {
        assert(links == before.push(x + " is "@ + seq!['n']));
    }
    assert forall|q: int| 0 <= q < links.len() implies is_off(o, syms, k, #[trigger] links[q]) by {
        if q < before.len() {
            assert(links[q] == before[q]);
            let i = choose|i: int|
                0 <= i < k - 1 && resolve::tri_in(o.names, o.vals, #[trigger] syms[i]) == Tri::N && before[q] == syms[i]
                    + " is "@ + seq!['n'];
            assert(0 <= i < k && resolve::tri_in(o.names, o.vals, syms[i]) == Tri::N);
        } else {
            assert(links[q] == syms[k - 1] + " is "@ + seq!['n']);
        }
    }
}

/// Whether a link says of one of the first symbols that it is off, and it is.
pub open spec fn is_off(o: Outcome, syms: Seq<Seq<char>>, k: nat, link: Seq<char>) -> bool {
    exists|i: int|
        0 <= i < k && resolve::tri_in(o.names, o.vals, #[trigger] syms[i]) == Tri::N && link == syms[i] + " is "@ + seq![
            'n',
        ]
}

proof fn nothing_is_off(o: Outcome, syms: Seq<Seq<char>>, k: nat)
    requires
        k <= syms.len(),
        forall|j: int| 0 <= j < k ==> resolve::tri_in(o.names, o.vals, #[trigger] syms[j]) != Tri::N,
    ensures
        resolve::off_links(o, syms, k).len() == 0,
    decreases k,
{
    if k > 0 {
        assert(resolve::tri_in(o.names, o.vals, syms[k - 1]) != Tri::N);
        nothing_is_off(o, syms, (k - 1) as nat);
    }
}

/// An indentation is two blanks for each step.
pub proof fn indentations_are_blanks(n: nat)
    ensures
        resolve::indent(n).len() == 2 * n,
        forall|i: int| 0 <= i < 2 * n ==> #[trigger] resolve::indent(n)[i] == ' ',
    decreases n,
{
    if n > 0 {
        indentations_are_blanks((n - 1) as nat);
        reveal_strlit("  ");
        let before = resolve::indent((n - 1) as nat);
        let all = resolve::indent(n);
        assert(all == before + "  "@);
        assert forall|i: int| 0 <= i < 2 * n implies #[trigger] all[i] == ' ' by {
            if i < before.len() {
                assert(all[i] == before[i]);
            }
        }
    }
}

/// The links of a fault are told one to a line, each further in than the one before.
pub proof fn faults_are_told_line_by_line(chain: Seq<Seq<char>>, n: nat, rest: Seq<char>)
    requires
        n <= chain.len(),
        forall|k: int, c: int|
            0 <= k < n && 0 <= c < chain[k].len() ==> #[trigger] chain[k][c] != '\n' && chain[k][c] != '\r',
    ensures
        text::lines(resolve::chain_text(chain, n) + rest, 0) == Seq::new(
            n,
            |k: int| resolve::indent((k + 1) as nat) + chain[k],
        ) + text::lines(rest, 0),
    decreases n,
{
    let all = Seq::new(n, |k: int| resolve::indent((k + 1) as nat) + chain[k]);
    if n == 0 {
        assert(resolve::chain_text(chain, n) + rest =~= rest);
        assert(all + text::lines(rest, 0) =~= text::lines(rest, 0));
    } else {
        let l = resolve::indent(n) + chain[n - 1];
        reveal_strlit("\n");
        assert("\n"@ =~= seq!['\n']);
        let more = l + seq!['\n'] + rest;
        faults_are_told_line_by_line(chain, (n - 1) as nat, more);
        let before = resolve::chain_text(chain, (n - 1) as nat);
        assert(resolve::chain_text(chain, n) + rest =~= before + more);
        indentations_are_blanks(n);
        assert forall|c: int| 0 <= c < l.len() implies #[trigger] l[c] != '\n' && l[c] != '\r' by {
            if c < 2 * n {
                assert(l[c] == resolve::indent(n)[c]);
            } else {
                assert(l[c] == chain[n - 1][c - 2 * n]);
            }
        }
        readings::lines_are_split_at_their_ends(l, rest);
        let front = Seq::new((n - 1) as nat, |k: int| resolve::indent((k + 1) as nat) + chain[k]);
        assert(front + (seq![l] + text::lines(rest, 0)) =~= all + text::lines(rest, 0));
    }
}

} // verus!
