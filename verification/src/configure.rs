//! From the options of a command to a configuration: what the preset and `--set` ask for, and what
//! that resolves to.

use vstd::prelude::*;
use vstd::string::*;

use crate::bytes;
use crate::graph;
use crate::kcfg;
use crate::kcfg::random;
use crate::kcfg::random::Mode;
use crate::kcfg::resolve;
use crate::kcfg::resolve::{Request, Resolution, ResolveError};
use crate::kcfg::SymbolTable;
use crate::modules;
use crate::text;

verus! {

/// A preset: its name, and the settings in its file.
pub struct Preset {
    pub name: String,
    pub settings: Vec<(String, String)>,
}

/// A preset over mathematical strings: its name, and its settings.
pub open spec fn preset_of(p: Option<Preset>) -> Option<(Seq<char>, Seq<(Seq<char>, Seq<char>)>)> {
    match p {
        Some(p) => Some((p.name@, modules::settings_of(p.settings@))),
        None => None,
    }
}

/// Where a preset's file is: a name is one of the tree's presets, and a path is a file somewhere
/// else.
pub open spec fn preset_file(root: Seq<char>, name: Seq<char>) -> Seq<char> {
    if name.contains('/') {
        name
    } else {
        graph::below(graph::below(root, "config/presets"@), name + ".preset"@)
    }
}

/// Where a preset's file is.
pub fn preset_path(root: &str, name: &str) -> (r: String)
    ensures
        r@ == preset_file(root@, name@),
{
    let n = text::chars(name);
    let at: usize = text::find_char(n.as_slice(), '/', 0);
    proof {
        first_slash(name@, 0);
    }
    if at < n.len() {
        return name.to_owned();
    }
    let mut file = name.to_owned();
    file.append(".preset");
    graph::join_path(graph::join_path(root, "config/presets").as_str(), file.as_str())
}

proof fn first_slash(s: Seq<char>, i: int)
    requires
        0 <= i <= s.len(),
        forall|k: int| 0 <= k < i ==> s[k] != '/',
    ensures
        s.contains('/') <==> text::next_of(s, '/', i) < s.len(),
    decreases s.len() - i,
{
    if i < s.len() {
        if s[i] != '/' {
            first_slash(s, i + 1);
        }
    }
}

/// Why a preset that is not there is refused.
pub fn no_preset(name: &str, available: &Vec<String>) -> (r: String)
    ensures
        r@ == "no preset `"@ + name@ + "`\n  available: "@ + text::joined(text::views(available@), ", "@),
{
    let mut r = text::three("no preset `", name, "`\n  available: ");
    r.append(text::join(available, ", ").as_str());
    r
}

/// What the first `n` settings of a preset ask for.
pub open spec fn preset_asks(name: Seq<char>, settings: Seq<(Seq<char>, Seq<char>)>) -> Seq<resolve::Ask> {
    settings.map_values(
        |s: (Seq<char>, Seq<char>)| resolve::Ask { symbol: s.0, text: s.1, source: "preset "@ + name },
    )
}

/// The first `n` requests but those for a symbol.
pub open spec fn without(asked: Seq<resolve::Ask>, symbol: Seq<char>, n: nat) -> Seq<resolve::Ask>
    decreases n,
{
    if n == 0 {
        seq![]
    } else if asked[n - 1].symbol == symbol {
        without(asked, symbol, (n - 1) as nat)
    } else {
        without(asked, symbol, (n - 1) as nat).push(asked[n - 1])
    }
}

/// What a `--set` asks for.
pub open spec fn set_ask(s: (Seq<char>, Seq<char>)) -> resolve::Ask {
    resolve::Ask { symbol: s.0, text: s.1, source: "--set"@ }
}

/// Requests with the first `n` of some `--set`s, each in place of every request for its symbol
/// before it.
pub open spec fn with_sets(asked: Seq<resolve::Ask>, sets: Seq<(Seq<char>, Seq<char>)>, n: nat) -> Seq<resolve::Ask>
    decreases n,
{
    if n == 0 {
        asked
    } else {
        let before = with_sets(asked, sets, (n - 1) as nat);
        without(before, sets[n - 1].0, before.len()).push(set_ask(sets[n - 1]))
    }
}

/// What the options ask for before anything is generated: the preset, then `--set`.
pub open spec fn base(
    preset: Option<(Seq<char>, Seq<(Seq<char>, Seq<char>)>)>,
    sets: Seq<(Seq<char>, Seq<char>)>,
) -> Seq<resolve::Ask> {
    with_sets(
        match preset {
            Some((name, settings)) => preset_asks(name, settings),
            None => seq![],
        },
        sets,
        sets.len(),
    )
}

fn drop_symbol(requests: &Vec<Request>, symbol: &str) -> (r: Vec<Request>)
    ensures
        resolve::asks(r@) == without(resolve::asks(requests@), symbol@, requests@.len()),
{
    let ghost all = resolve::asks(requests@);
    let mut out: Vec<Request> = Vec::new();
    let mut i: usize = 0;
    assert(resolve::asks(out@) =~= seq![]);
    while i < requests.len()
        invariant
            i <= requests@.len(),
            all == resolve::asks(requests@),
            resolve::asks(out@) == without(all, symbol@, i as nat),
        decreases requests@.len() - i,
    {
        assert(all[i as int] == requests@[i as int]@);
        if !text::same(requests[i].symbol.as_str(), symbol) {
            let ghost before = resolve::asks(out@);
            out.push(requests[i].clone());
            assert(resolve::asks(out@) =~= before.push(all[i as int]));
        }
        i += 1;
    }
    out
}

/// The requests that the options make before anything is generated: the preset's, then those of
/// `--set`, each in place of every earlier one for its symbol.
pub fn base_requests(preset: &Option<Preset>, sets: &Vec<(String, String)>) -> (r: Vec<Request>)
    ensures
        resolve::asks(r@) == base(preset_of(*preset), modules::settings_of(sets@)),
{
    let mut requests: Vec<Request> = Vec::new();
    assert(resolve::asks(requests@) =~= seq![]);
    if let Some(p) = preset {
        let ghost all = preset_asks(p.name@, modules::settings_of(p.settings@));
        let mut i: usize = 0;
        while i < p.settings.len()
            invariant
                i <= p.settings@.len(),
                all == preset_asks(p.name@, modules::settings_of(p.settings@)),
                resolve::asks(requests@) =~= all.subrange(0, i as int),
            decreases p.settings@.len() - i,
        {
            let mut source = "preset ".to_owned();
            source.append(p.name.as_str());
            let r = Request {
                symbol: p.settings[i].0.as_str().to_owned(),
                text: p.settings[i].1.as_str().to_owned(),
                source,
            };
            assert(modules::settings_of(p.settings@)[i as int] == (p.settings@[i as int].0@, p.settings@[i as int].1@));
            assert(r@ == all[i as int]);
            let ghost before = resolve::asks(requests@);
            requests.push(r);
            assert(resolve::asks(requests@) =~= before.push(all[i as int]));
            assert(before.push(all[i as int]) =~= all.subrange(0, i + 1));
            i += 1;
        }
        assert(resolve::asks(requests@) =~= all);
    }
    let ghost first = resolve::asks(requests@);
    let ghost given = modules::settings_of(sets@);
    let mut k: usize = 0;
    while k < sets.len()
        invariant
            k <= sets@.len(),
            given == modules::settings_of(sets@),
            resolve::asks(requests@) == with_sets(first, given, k as nat),
        decreases sets@.len() - k,
    {
        assert(given[k as int] == (sets@[k as int].0@, sets@[k as int].1@));
        let mut left = drop_symbol(&requests, sets[k].0.as_str());
        let ghost before = resolve::asks(left@);
        left.push(
            Request {
                symbol: sets[k].0.as_str().to_owned(),
                text: sets[k].1.as_str().to_owned(),
                source: "--set".to_owned(),
            },
        );
        assert(resolve::asks(left@) =~= before.push(set_ask(given[k as int])));
        requests = left;
        k += 1;
    }
    requests
}

/// Errors, one after the other.
pub open spec fn described(faults: Seq<resolve::Fault>) -> Seq<char> {
    text::joined(faults.map_values(|f: resolve::Fault| resolve::fault_text(f)), "\n"@)
}

fn describe(errors: &Vec<ResolveError>) -> (r: String)
    ensures
        r@ == described(resolve::faults(errors@)),
{
    let ghost all = resolve::faults(errors@).map_values(|f: resolve::Fault| resolve::fault_text(f));
    let mut v: Vec<String> = Vec::new();
    let mut i: usize = 0;
    while i < errors.len()
        invariant
            i <= errors@.len(),
            all == resolve::faults(errors@).map_values(|f: resolve::Fault| resolve::fault_text(f)),
            text::views(v@) =~= all.subrange(0, i as int),
        decreases errors@.len() - i,
    {
        assert(resolve::faults(errors@)[i as int] == errors@[i as int]@);
        let ghost before = text::views(v@);
        v.push(errors[i].to_text());
        assert(text::views(v@) =~= before.push(all[i as int]));
        assert(before.push(all[i as int]) =~= all.subrange(0, i + 1));
        i += 1;
    }
    assert(text::views(v@) =~= all);
    text::join(&v, "\n")
}

/// What is said of the requests that were generated: those from the `n`th on.
pub open spec fn generated_line(mode: Mode, asked: Seq<resolve::Ask>, n: nat) -> Seq<char> {
    let added = asked.subrange(n as int, asked.len() as int).map_values(
        |a: resolve::Ask| a.symbol + "="@ + a.text,
    );
    "\u{1b}[36mgenerated\u{1b}[0m "@ + random::mode_source(mode) + " ("@ + text::decimal(added.len() as int)
        + " requests): "@ + text::joined(added, " "@)
}

fn generated_text(mode: Mode, requests: &Vec<Request>, n: usize) -> (r: String)
    requires
        n <= requests@.len(),
    ensures
        r@ == generated_line(mode, resolve::asks(requests@), n as nat),
{
    let ghost all = resolve::asks(requests@);
    let ghost added = all.subrange(n as int, all.len() as int).map_values(
        |a: resolve::Ask| a.symbol + "="@ + a.text,
    );
    let mut v: Vec<String> = Vec::new();
    let mut i: usize = n;
    while i < requests.len()
        invariant
            n <= i <= requests@.len(),
            all == resolve::asks(requests@),
            added == all.subrange(n as int, all.len() as int).map_values(
                |a: resolve::Ask| a.symbol + "="@ + a.text,
            ),
            text::views(v@) =~= added.subrange(0, i - n),
        decreases requests@.len() - i,
    {
        assert(all[i as int] == requests@[i as int]@);
        let ghost before = text::views(v@);
        v.push(text::three(requests[i].symbol.as_str(), "=", requests[i].text.as_str()));
        assert(text::views(v@) =~= before.push(added[i - n]));
        assert(before.push(added[i - n]) =~= added.subrange(0, i + 1 - n));
        i += 1;
    }
    assert(text::views(v@) =~= added);
    let mut r = "\u{1b}[36mgenerated\u{1b}[0m ".to_owned();
    r.append(mode.source().as_str());
    r.append(" (");
    r.append(text::int_text((requests.len() - n) as i128).as_str());
    r.append(" requests): ");
    r.append(text::join(&v, " ").as_str());
    r
}

/// A configuration, and what is to be said of how it was generated, if it was.
#[derive(Debug)]
pub struct Settled {
    pub res: Resolution,
    pub generated: Option<String>,
}

/// What requests come to, extended by a mode if there is one.
pub open spec fn settled(t: kcfg::Table, asked: Seq<resolve::Ask>, mode: Option<Mode>) -> Result<
    (resolve::Outcome, Option<Seq<char>>),
    Seq<char>,
> {
    match mode {
        None => match resolve::resolved(t, asked) {
            Ok(o) => Ok((o, None)),
            Err(f) => Err(described(f)),
        },
        Some(m) => match random::generated(t, asked, m) {
            Ok((o, all)) => Ok((o, Some(generated_line(m, all, asked.len())))),
            Err(f) => Err(described(f)),
        },
    }
}

/// A table's choices are vectors, so that their members can be counted.
proof fn choices_are_counted(table: &SymbolTable)
    ensures
        random::choices_fit(table@),
{
    assert forall|c: int| 0 <= c < table@.choices.len() implies (#[trigger] table@.choices[c]).members.len()
        <= u64::MAX by {
        let members = table.choices@[c].members;
        assert(members.len() == members@.len());
    }
}

/// Resolve a configuration, extending it where the options say so.
pub fn resolve_config(table: &SymbolTable, requests: &Vec<Request>, mode: Option<Mode>) -> (r: Result<Settled, String>)
    requires
        kcfg::well_formed(table@),
    ensures
        match r {
            Ok(s) => settled(table@, resolve::asks(requests@), mode) == Ok::<
                (resolve::Outcome, Option<Seq<char>>),
                Seq<char>,
            >((s.res@, text::opt(s.generated))),
            Err(e) => settled(table@, resolve::asks(requests@), mode) == Err::<
                (resolve::Outcome, Option<Seq<char>>),
                Seq<char>,
            >(e@),
        },
{
    match mode {
        None => match resolve::resolve(table, requests.as_slice()) {
            Ok(res) => Ok(Settled { res, generated: None }),
            Err(e) => Err(describe(&e)),
        },
        Some(m) => match random::generate(table, requests.as_slice(), m) {
            Ok((res, all)) => {
                proof {
                    choices_are_counted(table);
                    random::generated_configurations_are_valid(table@, resolve::asks(requests@), m);
                }
                let line = generated_text(m, &all, requests.len());
                Ok(Settled { res, generated: Some(line) })
            },
            Err(e) => Err(describe(&e)),
        },
    }
}

/// What a refused `--set` is called in an error.
pub open spec fn refusal(s: (Seq<char>, Seq<char>)) -> Seq<char> {
    "cannot set "@ + s.0 + "="@ + s.1
}

/// Whether one of some settings is for a symbol.
pub open spec fn sets_symbol(sets: Seq<(Seq<char>, Seq<char>)>, symbol: Seq<char>) -> bool {
    exists|k: int| 0 <= k < sets.len() && (#[trigger] sets[k]).0 == symbol
}

/// The first `--set` from `i` on that an error says was refused, and that is not for a symbol which
/// is overridden.
pub open spec fn refused(
    sets: Seq<(Seq<char>, Seq<char>)>,
    extra: Seq<(Seq<char>, Seq<char>)>,
    error: Seq<char>,
    i: int,
) -> Option<int>
    decreases sets.len() - i,
{
    if i < 0 || i >= sets.len() {
        None
    } else if !sets_symbol(extra, sets[i].0) && bytes::find(error, refusal(sets[i]), 0) is Some {
        Some(i)
    } else {
        refused(sets, extra, error, i + 1)
    }
}

/// What a configuration comes to with some settings on top. A `--set` that the overridden
/// configuration cannot honour is dropped.
pub open spec fn overridden(
    t: kcfg::Table,
    preset: Option<(Seq<char>, Seq<(Seq<char>, Seq<char>)>)>,
    sets: Seq<(Seq<char>, Seq<char>)>,
    extra: Seq<(Seq<char>, Seq<char>)>,
    mode: Option<Mode>,
) -> Result<(resolve::Outcome, Option<Seq<char>>), Seq<char>>
    decreases sets.len(),
{
    match settled(t, base(preset, sets), mode) {
        Ok(s) => Ok(s),
        Err(e) => match refused(sets, extra, e, 0) {
            Some(i) if 0 <= i < sets.len() => overridden(t, preset, sets.remove(i), extra, mode),
            _ => Err(e),
        },
    }
}

fn has_symbol(sets: &Vec<(String, String)>, symbol: &str) -> (r: bool)
    ensures
        r == sets_symbol(modules::settings_of(sets@), symbol@),
{
    let ghost all = modules::settings_of(sets@);
    let mut i: usize = 0;
    while i < sets.len()
        invariant
            i <= sets@.len(),
            all == modules::settings_of(sets@),
            forall|k: int| 0 <= k < i ==> (#[trigger] all[k]).0 != symbol@,
        decreases sets@.len() - i,
    {
        assert(all[i as int] == (sets@[i as int].0@, sets@[i as int].1@));
        if text::same(sets[i].0.as_str(), symbol) {
            return true;
        }
        i += 1;
    }
    false
}

fn find_refused(sets: &Vec<(String, String)>, extra: &Vec<(String, String)>, error: &str) -> (r: Option<usize>)
    ensures
        match r {
            Some(i) => i < sets@.len() && refused(
                modules::settings_of(sets@),
                modules::settings_of(extra@),
                error@,
                0,
            ) == Some(i as int),
            None => refused(modules::settings_of(sets@), modules::settings_of(extra@), error@, 0) == None::<int>,
        },
{
    let ghost all = modules::settings_of(sets@);
    let e = text::chars(error);
    let mut i: usize = 0;
    while i < sets.len()
        invariant
            i <= sets@.len(),
            all == modules::settings_of(sets@),
            e@ == error@,
            refused(all, modules::settings_of(extra@), error@, 0) == refused(
                all,
                modules::settings_of(extra@),
                error@,
                i as int,
            ),
        decreases sets@.len() - i,
    {
        assert(all[i as int] == (sets@[i as int].0@, sets@[i as int].1@));
        if !has_symbol(extra, sets[i].0.as_str()) {
            let mut said = text::three("cannot set ", sets[i].0.as_str(), "=");
            said.append(sets[i].1.as_str());
            if text::find_text(e.as_slice(), text::chars(said.as_str()).as_slice()).is_some() {
                return Some(i);
            }
        }
        i += 1;
    }
    None
}

fn copy_sets(sets: &Vec<(String, String)>) -> (r: Vec<(String, String)>)
    ensures
        modules::settings_of(r@) == modules::settings_of(sets@),
{
    let ghost all = modules::settings_of(sets@);
    let mut out: Vec<(String, String)> = Vec::new();
    let mut i: usize = 0;
    while i < sets.len()
        invariant
            i <= sets@.len(),
            all == modules::settings_of(sets@),
            modules::settings_of(out@) =~= all.subrange(0, i as int),
        decreases sets@.len() - i,
    {
        assert(all[i as int] == (sets@[i as int].0@, sets@[i as int].1@));
        let ghost before = modules::settings_of(out@);
        out.push((sets[i].0.as_str().to_owned(), sets[i].1.as_str().to_owned()));
        assert(modules::settings_of(out@) =~= before.push(all[i as int]));
        assert(before.push(all[i as int]) =~= all.subrange(0, i + 1));
        i += 1;
    }
    assert(modules::settings_of(out@) =~= all);
    out
}

/// The configuration of a module that asks for another than the kernel's: the kernel's, with the
/// module's overrides on top. A `--set` that the overridden configuration cannot honour is dropped,
/// for that build only.
pub fn resolve_overridden(
    table: &SymbolTable,
    preset: &Option<Preset>,
    sets: &Vec<(String, String)>,
    extra: &Vec<(String, String)>,
    mode: Option<Mode>,
) -> (r: Result<Settled, String>)
    requires
        kcfg::well_formed(table@),
    ensures
        ({
            let given = modules::settings_of(sets@);
            let added = modules::settings_of(extra@);
            let all = overridden(table@, preset_of(*preset), given + added, added, mode);
            match r {
                Ok(s) => all == Ok::<(resolve::Outcome, Option<Seq<char>>), Seq<char>>(
                    (s.res@, text::opt(s.generated)),
                ),
                Err(e) => all == Err::<(resolve::Outcome, Option<Seq<char>>), Seq<char>>(e@),
            }
        }),
{
    let ghost given = modules::settings_of(sets@);
    let ghost added = modules::settings_of(extra@);
    let ghost all = overridden(table@, preset_of(*preset), given + added, added, mode);
    let mut left = copy_sets(sets);
    let mut more = copy_sets(extra);
    left.append(&mut more);
    assert(modules::settings_of(left@) =~= given + added);
    loop
        invariant
            kcfg::well_formed(table@),
                added == modules::settings_of(extra@),
            overridden(table@, preset_of(*preset), modules::settings_of(left@), added, mode) == all,
            all == overridden(table@, preset_of(*preset), given + added, added, mode),
            given == modules::settings_of(sets@),
        decreases left@.len(),
    {
        let requests = base_requests(preset, &left);
        match resolve_config(table, &requests, mode) {
            Ok(s) => return Ok(s),
            Err(e) => match find_refused(&left, extra, e.as_str()) {
                Some(i) => {
                    let ghost before = modules::settings_of(left@);
                    left.remove(i);
                    assert(modules::settings_of(left@) =~= before.remove(i as int));
                },
                None => return Err(e),
            },
        }
    }
}

proof fn without_keeps_others(asked: Seq<resolve::Ask>, symbol: Seq<char>, n: nat)
    requires
        n <= asked.len(),
    ensures
        forall|k: int| 0 <= k < without(asked, symbol, n).len() ==> (#[trigger] without(asked, symbol, n)[k]).symbol
            != symbol,
        forall|a: resolve::Ask|
            a.symbol != symbol ==> (without(asked, symbol, n).contains(a) <==> asked.subrange(
                0,
                n as int,
            ).contains(a)),
    decreases n,
{
    if n > 0 {
        without_keeps_others(asked, symbol, (n - 1) as nat);
        let front = asked.subrange(0, n - 1);
        let whole = asked.subrange(0, n as int);
        assert(whole =~= front.push(asked[n - 1]));
        let w = without(asked, symbol, (n - 1) as nat);
        assert forall|a: resolve::Ask| a.symbol != symbol implies (without(asked, symbol, n).contains(a)
            <==> whole.contains(a)) by {
            pushed_contains(front, asked[n - 1], a);
            pushed_contains(w, asked[n - 1], a);
        }
    } else {
        assert(asked.subrange(0, 0) =~= seq![]);
    }
}

proof fn pushed_contains(s: Seq<resolve::Ask>, x: resolve::Ask, a: resolve::Ask)
    ensures
        s.push(x).contains(a) <==> s.contains(a) || a == x,
{
    if s.contains(a) {
        let k = choose|k: int| 0 <= k < s.len() && s[k] == a;
        assert(s.push(x)[k] == a);
    }
    if a == x {
        assert(s.push(x)[s.len() as int] == a);
    }
    if s.push(x).contains(a) {
        let k = choose|k: int| 0 <= k < s.push(x).len() && s.push(x)[k] == a;
        if k < s.len() {
            assert(s[k] == a);
        }
    }
}

/// The last `--set` of a symbol wins: whatever the preset or an earlier `--set` asked of it, what is
/// asked of it in the end is what that `--set` says, once.
pub proof fn last_set_wins(
    preset: Option<(Seq<char>, Seq<(Seq<char>, Seq<char>)>)>,
    sets: Seq<(Seq<char>, Seq<char>)>,
    i: int,
)
    requires
        0 <= i < sets.len(),
        forall|j: int| i < j < sets.len() ==> (#[trigger] sets[j]).0 != sets[i].0,
    ensures
        base(preset, sets).contains(set_ask(sets[i])),
        forall|a: resolve::Ask|
            #![auto]
            base(preset, sets).contains(a) && a.symbol == sets[i].0 ==> a == set_ask(sets[i]),
{
    let first = match preset {
        Some((name, settings)) => preset_asks(name, settings),
        None => seq![],
    };
    set_stays(first, sets, i, sets.len());
}

proof fn set_stays(first: Seq<resolve::Ask>, sets: Seq<(Seq<char>, Seq<char>)>, i: int, n: nat)
    requires
        0 <= i < n <= sets.len(),
        forall|j: int| i < j < sets.len() ==> (#[trigger] sets[j]).0 != sets[i].0,
    ensures
        with_sets(first, sets, n).contains(set_ask(sets[i])),
        forall|a: resolve::Ask|
            #![auto]
            with_sets(first, sets, n).contains(a) && a.symbol == sets[i].0 ==> a == set_ask(sets[i]),
    decreases n,
{
    let before = with_sets(first, sets, (n - 1) as nat);
    let left = without(before, sets[n - 1].0, before.len());
    without_keeps_others(before, sets[n - 1].0, before.len());
    assert(before.subrange(0, before.len() as int) =~= before);
    let x = set_ask(sets[n - 1]);
    if n - 1 > i {
        set_stays(first, sets, i, (n - 1) as nat);
        assert(sets[n - 1].0 != sets[i].0);
    }
    pushed_contains(left, x, set_ask(sets[i]));
    assert forall|a: resolve::Ask|
        #![auto]
        left.push(x).contains(a) && a.symbol == sets[i].0 implies a == set_ask(sets[i]) by {
        pushed_contains(left, x, a);
        if left.contains(a) && n - 1 == i {
            let k = choose|k: int| 0 <= k < left.len() && left[k] == a;
            assert(left[k].symbol != sets[i].0);
        }
    }
}

/// The settings that are left once those that were refused have been dropped.
pub open spec fn kept(
    t: kcfg::Table,
    preset: Option<(Seq<char>, Seq<(Seq<char>, Seq<char>)>)>,
    sets: Seq<(Seq<char>, Seq<char>)>,
    extra: Seq<(Seq<char>, Seq<char>)>,
    mode: Option<Mode>,
) -> Seq<(Seq<char>, Seq<char>)>
    decreases sets.len(),
{
    match settled(t, base(preset, sets), mode) {
        Ok(_) => sets,
        Err(e) => match refused(sets, extra, e, 0) {
            Some(i) if 0 <= i < sets.len() => kept(t, preset, sets.remove(i), extra, mode),
            _ => sets,
        },
    }
}

proof fn refused_is_no_override(
    sets: Seq<(Seq<char>, Seq<char>)>,
    extra: Seq<(Seq<char>, Seq<char>)>,
    error: Seq<char>,
    i: int,
)
    requires
        refused(sets, extra, error, i) is Some,
    ensures
        i <= refused(sets, extra, error, i)->0 < sets.len(),
        !sets_symbol(extra, sets[refused(sets, extra, error, i)->0].0),
    decreases sets.len() - i,
{
    if sets_symbol(extra, sets[i].0) || bytes::find(error, refusal(sets[i]), 0) is None {
        refused_is_no_override(sets, extra, error, i + 1);
    }
}

/// A module's overrides are never dropped: whatever `--set` had to give way, what its configuration
/// comes to is what the settings that are left come to, and the overrides still stand behind all of
/// them.
pub proof fn overrides_are_kept(
    t: kcfg::Table,
    preset: Option<(Seq<char>, Seq<(Seq<char>, Seq<char>)>)>,
    sets: Seq<(Seq<char>, Seq<char>)>,
    extra: Seq<(Seq<char>, Seq<char>)>,
    mode: Option<Mode>,
)
    requires
        extra.is_suffix_of(sets),
    ensures
        extra.is_suffix_of(kept(t, preset, sets, extra, mode)),
        overridden(t, preset, sets, extra, mode) == settled(t, base(preset, kept(t, preset, sets, extra, mode)), mode),
    decreases sets.len(),
{
    if let Err(e) = settled(t, base(preset, sets), mode) {
        if let Some(i) = refused(sets, extra, e, 0) {
            refused_is_no_override(sets, extra, e, 0);
            let at = sets.len() - extra.len();
            if i >= at {
                assert(extra[i - at] == sets[i]);
            }
            let less = sets.remove(i);
            assert(extra =~= less.subrange(less.len() - extra.len(), less.len() as int));
            overrides_are_kept(t, preset, less, extra, mode);
        }
    }
}

} // verus!
