//! What a change in an interactive session does to the configuration, and what each key does to the
//! session, said of values, requests and rows.

use vstd::prelude::*;
use vstd::string::*;

use crate::kcfg;
use crate::kcfg::expr::Tri;
use crate::kcfg::parse;
use crate::kcfg::resolve;
use crate::kcfg::resolve::Ask;
use crate::kcfg::rules;
use crate::kcfg::{Kind, MODULES};
use crate::menuconfig;
use crate::menuconfig::{Action, Desk, Key, Line, Pane, Spot};

verus! {

/// Whether a change took: the symbol may be set, and what is asked for then resolves.
pub open spec fn takes(t: kcfg::Table, d: Desk, i: int, sets: Seq<(Seq<char>, Seq<char>)>) -> bool {
    &&& !t.symbols[i].readonly
    &&& t.symbols[i].prompt is Some
    &&& resolve::resolved(t, d.base + menuconfig::changed(d, sets)) is Ok
}

proof fn the_others_are_off(asked: Seq<Ask>, members: Seq<Seq<char>>, name: Seq<char>, k: nat)
    requires
        k <= members.len(),
    ensures
        ({
            let off = menuconfig::others_off(asked, members, name, k);
            &&& forall|j: int| 0 <= j < off.len() ==> (#[trigger] off[j]).0 != name && off[j].1 == "n"@
            &&& forall|m: int|
                0 <= m < k && (#[trigger] members[m]) != name && menuconfig::last_text(asked, members[m], asked.len())
                    == Some("y"@) ==> exists|j: int| 0 <= j < off.len() && (#[trigger] off[j]).0 == members[m]
        }),
    decreases k,
{
    if k > 0 {
        the_others_are_off(asked, members, name, (k - 1) as nat);
        let before = menuconfig::others_off(asked, members, name, (k - 1) as nat);
        let off = menuconfig::others_off(asked, members, name, k);
        assert forall|m: int|
            0 <= m < k && (#[trigger] members[m]) != name && menuconfig::last_text(asked, members[m], asked.len()) == Some(
                "y"@,
            ) implies exists|j: int| 0 <= j < off.len() && (#[trigger] off[j]).0 == members[m] by {
            if m < k - 1 {
                let j = choose|j: int| 0 <= j < before.len() && (#[trigger] before[j]).0 == members[m];
                assert(off[j].0 == members[m]);
            } else {
                assert(off[before.len() as int].0 == members[m]);
            }
        }
    }
}

proof fn the_change_is_asked_last(
    t: kcfg::Table,
    d: Desk,
    i: int,
    txt: Seq<char>,
    rest: Seq<(Seq<char>, Seq<char>)>,
) -> (a: int)
    requires
        0 <= i < t.symbols.len(),
        forall|j: int| 0 <= j < rest.len() ==> (#[trigger] rest[j]).0 != t.symbols[i].name,
    ensures
        ({
            let asked = d.base + menuconfig::changed(d, seq![(t.symbols[i].name, txt)] + rest);
            rules::last_asked(t, asked, i, a) && asked[a].text == txt
        }),
{
    let sets = seq![(t.symbols[i].name, txt)] + rest;
    let keep = menuconfig::kept(d.changes, sets, d.changes.len());
    let asked = d.base + menuconfig::changed(d, sets);
    let a = (d.base.len() + keep.len()) as int;
    assert(asked[a] == menuconfig::set_asks(sets)[0]);
    assert forall|b: int| a < b < asked.len() implies (#[trigger] asked[b]).symbol != t.symbols[i].name by {
        assert(asked[b] == menuconfig::set_asks(sets)[b - a]);
        assert(sets[b - a] == rest[b - a - 1]);
    }
    a
}

/// A change that takes gives the symbol the value that was asked for, and is remembered as a change
/// that is not saved. One that does not take changes neither the configuration nor what is asked for.
pub proof fn a_change_that_takes_is_made(t: kcfg::Table, d: Desk, i: int, txt: Seq<char>)
    requires
        menuconfig::sound(t, d),
        0 <= i < t.symbols.len(),
    ensures
        ({
            let name = t.symbols[i].name;
            let n = menuconfig::set_to(t, d, name, txt);
            let sets = menuconfig::settings(t, d, name, txt);
            &&& takes(t, d, i, sets) ==> {
                &&& parse::value_of(txt, t.symbols[i].kind) == Ok::<kcfg::Value, Seq<char>>(n.o.vals[i])
                &&& n.dirty
                &&& resolve::resolved(t, menuconfig::requested(n)) == Ok::<resolve::Outcome, Seq<resolve::Fault>>(n.o)
            }
            &&& !takes(t, d, i, sets) ==> n.o == d.o && n.changes == d.changes && n.dirty == d.dirty
            &&& n.base == d.base
            &&& n.stack == d.stack
            &&& n.view == d.view
        }),
{
    let name = t.symbols[i].name;
    let sets = menuconfig::settings(t, d, name, txt);
    names_stand(t, i, 0);
    if takes(t, d, i, sets) {
        let s = t.symbols[i];
        let rest = if s.choice is Some && txt == "y"@ {
            let g = t.choices[kcfg::group_from(t.choices, s.choice->0, 0)->0];
            the_others_are_off(menuconfig::requested(d), g.members, name, g.members.len());
            menuconfig::others_off(menuconfig::requested(d), g.members, name, g.members.len())
        } else {
            seq![]
        };
        assert(sets =~= seq![(name, txt)] + rest);
        let a = the_change_is_asked_last(t, d, i, txt, rest);
        rules::the_last_request_decides(t, d.base + menuconfig::changed(d, sets), i, a);
    }
}

proof fn names_stand(t: kcfg::Table, i: int, from: int)
    requires
        kcfg::well_formed(t),
        0 <= from <= i < t.symbols.len(),
    ensures
        kcfg::sym_from(t.symbols, t.symbols[i].name, from) == Some(i),
    decreases i - from,
{
    if from < i {
        names_stand(t, i, from + 1);
    }
}

proof fn wishes_of_a_front(s: kcfg::Sym, asked: Seq<Ask>, more: Seq<Ask>, k: nat)
    requires
        k <= asked.len(),
    ensures
        resolve::wish(s, asked + more, k) == resolve::wish(s, asked, k),
    decreases k,
{
    if k > 0 {
        wishes_of_a_front(s, asked, more, (k - 1) as nat);
        assert((asked + more)[k - 1] == asked[k - 1]);
    }
}

proof fn others_asks_do_not_count(s: kcfg::Sym, asked: Seq<Ask>, more: Seq<Ask>, k: nat)
    requires
        k <= more.len(),
        forall|j: int| 0 <= j < more.len() ==> (#[trigger] more[j]).symbol != s.name,
    ensures
        resolve::wish(s, asked + more, asked.len() + k) == resolve::wish(s, asked, asked.len()),
    decreases k,
{
    if k == 0 {
        wishes_of_a_front(s, asked, more, asked.len());
    } else {
        others_asks_do_not_count(s, asked, more, (k - 1) as nat);
        assert((asked + more)[asked.len() + k - 1] == more[k - 1]);
    }
}

proof fn what_is_kept_is_asked(
    s: kcfg::Sym,
    base: Seq<Ask>,
    changes: Seq<Ask>,
    sets: Seq<(Seq<char>, Seq<char>)>,
    k: nat,
)
    requires
        k <= changes.len(),
        !menuconfig::is_set(sets, s.name),
    ensures
        ({
            let keep = menuconfig::kept(changes, sets, k);
            resolve::wish(s, base + keep, base.len() + keep.len()) == resolve::wish(s, base + changes, base.len() + k)
        }),
    decreases k,
{
    let keep = menuconfig::kept(changes, sets, k);
    if k == 0 {
        wishes_of_a_front(s, base, changes, base.len());
        assert(base + keep =~= base);
    } else {
        what_is_kept_is_asked(s, base, changes, sets, (k - 1) as nat);
        let before = menuconfig::kept(changes, sets, (k - 1) as nat);
        let c = changes[k - 1];
        assert((base + changes)[base.len() + k - 1] == c);
        if !menuconfig::is_set(sets, c.symbol) {
            assert(base + keep =~= (base + before) + seq![c]);
            wishes_of_a_front(s, base + before, seq![c], (base + before).len());
            assert(((base + before) + seq![c])[(base + before).len() as int] == c);
        }
    }
}

/// A change asks nothing of any symbol but those it sets: what the session asked of the others, it
/// asks still.
pub proof fn a_change_leaves_the_others_alone(
    t: kcfg::Table,
    d: Desk,
    name: Seq<char>,
    sets: Seq<(Seq<char>, Seq<char>)>,
    s: kcfg::Sym,
)
    requires
        forall|k: int| 0 <= k < sets.len() ==> (#[trigger] sets[k]).0 != s.name,
    ensures
        ({
            let n = menuconfig::requested(menuconfig::applied(t, d, name, sets));
            let o = menuconfig::requested(d);
            resolve::wish(s, n, n.len()) == resolve::wish(s, o, o.len())
        }),
{
    let keep = menuconfig::kept(d.changes, sets, d.changes.len());
    let asks = menuconfig::set_asks(sets);
    what_is_kept_is_asked(s, d.base, d.changes, sets, d.changes.len());
    assert forall|j: int| 0 <= j < asks.len() implies (#[trigger] asks[j]).symbol != s.name by {
        assert(sets[j].0 != s.name);
    }
    others_asks_do_not_count(s, d.base + keep, asks, asks.len());
    assert(d.base + menuconfig::changed(d, sets) =~= d.base + keep + asks);
}

/// Picking a member of a choice takes the request back from every member that was asked to be on: each
/// of them is asked to be off in the same change, and no other member is asked anything.
pub proof fn picking_a_member_drops_the_others(t: kcfg::Table, d: Desk, i: int, m: int)
    requires
        menuconfig::sound(t, d),
        0 <= i < t.symbols.len(),
        t.symbols[i].choice is Some,
        ({
            let g = t.choices[kcfg::group_from(t.choices, t.symbols[i].choice->0, 0)->0];
            0 <= m < g.members.len() && g.members[m] != t.symbols[i].name
        }),
    ensures
        ({
            let g = t.choices[kcfg::group_from(t.choices, t.symbols[i].choice->0, 0)->0];
            let sets = menuconfig::settings(t, d, t.symbols[i].name, "y"@);
            let asked = menuconfig::requested(d);
            &&& sets[0] == (t.symbols[i].name, "y"@)
            &&& menuconfig::last_text(asked, g.members[m], asked.len()) == Some("y"@) ==> exists|k: int|
                0 < k < sets.len() && #[trigger] sets[k] == (g.members[m], "n"@)
        }),
{
    let g = t.choices[kcfg::group_from(t.choices, t.symbols[i].choice->0, 0)->0];
    let name = t.symbols[i].name;
    let asked = menuconfig::requested(d);
    names_stand(t, i, 0);
    the_others_are_off(asked, g.members, name, g.members.len());
    let off = menuconfig::others_off(asked, g.members, name, g.members.len());
    let sets = menuconfig::settings(t, d, name, "y"@);
    if menuconfig::last_text(asked, g.members[m], asked.len()) == Some("y"@) {
        let j = choose|j: int| 0 <= j < off.len() && (#[trigger] off[j]).0 == g.members[m];
        assert(sets[j + 1] == off[j]);
    }
}

proof fn letters_read(c: char, kind: Kind)
    requires
        c == 'y' || c == 'm' || c == 'n',
        kind == Kind::Tristate || (kind == Kind::Bool && c != 'm'),
    ensures
        parse::value_of(seq![c], kind) == Ok::<kcfg::Value, Seq<char>>(
            kcfg::Value::Tri(
                if c == 'y' {
                    Tri::Y
                } else if c == 'm' {
                    Tri::M
                } else {
                    Tri::N
                },
            ),
        ),
{
    kcfg::clauses::blanks_are_trimmed(Seq::empty(), seq![c], Seq::empty());
    assert(Seq::<char>::empty() + seq![c] + Seq::<char>::empty() =~= seq![c]);
}

/// Enter and space step a symbol on: a `bool` outside a choice turns round, a member of a choice is
/// picked, a `tristate` goes from off to a module where modules exist and to built in where they do not,
/// from a module to built in, and from built in to off. This holds wherever the change takes.
pub proof fn symbols_step_on(t: kcfg::Table, d: Desk, i: int)
    requires
        menuconfig::sound(t, d),
        0 <= i < t.symbols.len(),
        t.symbols[i].kind == Kind::Bool || t.symbols[i].kind == Kind::Tristate,
        menuconfig::activated(t, d, t.symbols[i].name).changes != d.changes,
    ensures
        ({
            let n = menuconfig::activated(t, d, t.symbols[i].name).o.vals[i];
            let now = kcfg::truth(d.o.vals[i]);
            let modules = resolve::tri_in(d.o.names, d.o.vals, MODULES@) == Tri::Y;
            &&& t.symbols[i].kind == Kind::Bool && t.symbols[i].choice is Some ==> n == kcfg::Value::Tri(Tri::Y)
            &&& t.symbols[i].kind == Kind::Bool && t.symbols[i].choice is None && now == Tri::N ==> n
                == kcfg::Value::Tri(Tri::Y)
            &&& t.symbols[i].kind == Kind::Bool && t.symbols[i].choice is None && now != Tri::N ==> n
                == kcfg::Value::Tri(Tri::N)
            &&& t.symbols[i].kind == Kind::Tristate && now == Tri::N && modules ==> n == kcfg::Value::Tri(Tri::M)
            &&& t.symbols[i].kind == Kind::Tristate && now == Tri::N && !modules ==> n == kcfg::Value::Tri(Tri::Y)
            &&& t.symbols[i].kind == Kind::Tristate && now == Tri::M ==> n == kcfg::Value::Tri(Tri::Y)
            &&& t.symbols[i].kind == Kind::Tristate && now == Tri::Y ==> n == kcfg::Value::Tri(Tri::N)
        }),
{
    names_stand(t, i, 0);
    reveal_strlit("y");
    reveal_strlit("n");
    reveal_strlit("m");
    assert("y"@ =~= seq!['y']);
    assert("n"@ =~= seq!['n']);
    assert("m"@ =~= seq!['m']);
    a_change_that_takes_is_made(t, d, i, "y"@);
    a_change_that_takes_is_made(t, d, i, "n"@);
    a_change_that_takes_is_made(t, d, i, "m"@);
    letters_read('y', t.symbols[i].kind);
    letters_read('n', t.symbols[i].kind);
    if t.symbols[i].kind == Kind::Tristate {
        letters_read('m', t.symbols[i].kind);
    }
}

/// A symbol that holds a number or a text is edited, starting from what it holds, where it may be set at
/// all; where it may not, nothing but the message changes.
pub proof fn values_are_edited(t: kcfg::Table, d: Desk, i: int)
    requires
        menuconfig::sound(t, d),
        0 <= i < t.symbols.len(),
        t.symbols[i].kind == Kind::Int || t.symbols[i].kind == Kind::Hex || t.symbols[i].kind == Kind::Str,
    ensures
        ({
            let name = t.symbols[i].name;
            let n = menuconfig::activated(t, d, name);
            let may = !t.symbols[i].readonly && t.symbols[i].prompt is Some;
            &&& n.o == d.o
            &&& n.changes == d.changes
            &&& may ==> n.view == Pane::Edit(name, kcfg::literal(d.o.vals[i]))
            &&& !may ==> n.view == d.view
        }),
{
    names_stand(t, i, 0);
}

/// The cursor moves one row up or down and stays on the rows there are; nothing else moves.
pub proof fn the_cursor_stays_on_the_rows(t: kcfg::Table, d: Desk)
    requires
        menuconfig::sound(t, d),
        d.view is List,
    ensures
        ({
            let (node, c) = d.stack.last();
            let rows = menuconfig::all_rows(t, node).len() as int;
            let up = menuconfig::handled(t, d, Key::Up);
            let down = menuconfig::handled(t, d, Key::Down);
            &&& up.0.stack.len() == d.stack.len() && down.0.stack.len() == d.stack.len()
            &&& up.0.stack.last().0 == node && down.0.stack.last().0 == node
            &&& c > 0 ==> up.0.stack.last().1 == c - 1
            &&& c == 0 ==> up.0.stack.last().1 == 0
            &&& c + 1 < rows ==> down.0.stack.last().1 == c + 1
            &&& c + 1 == rows ==> down.0.stack.last().1 == c
            &&& up.0.o == d.o && down.0.o == d.o && up.0.changes == d.changes && down.0.changes == d.changes
            &&& up.1 is Continue && down.1 is Continue
            &&& menuconfig::handled(t, d, Key::Char('k')) == up
            &&& menuconfig::handled(t, d, Key::Char('j')) == down
        }),
{
    assert(menuconfig::spot_sound(t, d.stack[d.stack.len() - 1]));
}

/// Opening a menu or a choice goes into it, at its first row, and going back leaves everything as it was.
/// There is nothing to go back to at the top.
pub proof fn going_in_and_back(t: kcfg::Table, d: Desk)
    requires
        menuconfig::sound(t, d),
        d.view is List,
    ensures
        ({
            let inside = menuconfig::handled(t, d, Key::Enter).0;
            &&& menuconfig::current(t, d) matches Some(Line::Menu(m)) ==> inside.stack == d.stack.push((Spot::Menu(m), 0))
                && menuconfig::handled(t, inside, Key::Left).0 == d
            &&& menuconfig::current(t, d) matches Some(Line::Choice(c)) ==> inside.stack == d.stack.push(
                (Spot::Choice(c), 0),
            ) && menuconfig::handled(t, inside, Key::Left).0 == d
            &&& d.stack.len() == 1 ==> menuconfig::handled(t, d, Key::Left).0 == d
            &&& menuconfig::handled(t, d, Key::Right) == menuconfig::handled(t, d, Key::Enter)
            &&& menuconfig::handled(t, d, Key::Char('l')) == menuconfig::handled(t, d, Key::Enter)
            &&& menuconfig::handled(t, d, Key::Esc) == menuconfig::handled(t, d, Key::Left)
            &&& menuconfig::handled(t, d, Key::Backspace) == menuconfig::handled(t, d, Key::Left)
            &&& menuconfig::handled(t, d, Key::Char('h')) == menuconfig::handled(t, d, Key::Left)
        }),
{
    if let Some(Line::Menu(m)) = menuconfig::current(t, d) {
        let inside = menuconfig::handled(t, d, Key::Enter).0;
        assert(inside.stack.drop_last() =~= d.stack);
    }
    if let Some(Line::Choice(c)) = menuconfig::current(t, d) {
        let inside = menuconfig::handled(t, d, Key::Enter).0;
        assert(inside.stack.drop_last() =~= d.stack);
    }
}

/// While a value is edited, a character goes behind what was typed and backspace takes it off again,
/// escape gives the edit up, and enter asks for what was typed.
pub proof fn edits_can_be_taken_back(t: kcfg::Table, d: Desk, symbol: Seq<char>, buffer: Seq<char>, c: char)
    requires
        d.view == Pane::Edit(symbol, buffer),
    ensures
        ({
            let typed = menuconfig::handled(t, d, Key::Char(c));
            &&& typed.0.view == Pane::Edit(symbol, buffer.push(c))
            &&& typed.0.o == d.o && typed.0.changes == d.changes
            &&& menuconfig::handled(t, typed.0, Key::Backspace).0 == d
            &&& menuconfig::handled(t, d, Key::Esc).0.view is List
            &&& menuconfig::handled(t, d, Key::Esc).0.changes == d.changes
            &&& menuconfig::handled(t, d, Key::Esc).0.o == d.o
            &&& menuconfig::handled(t, d, Key::Enter).0.view is List
            &&& menuconfig::handled(t, d, Key::Enter).0 == menuconfig::applied(
                t,
                Desk { view: Pane::List, ..d },
                symbol,
                seq![(symbol, buffer)],
            )
        }),
{
    assert(buffer.push(c).drop_last() =~= buffer);
}

/// A session with unsaved changes asks before it ends: `s` saves them and ends it, `q` ends it without,
/// and anything else goes back. One without unsaved changes ends at once.
pub proof fn quitting_asks_first(t: kcfg::Table, d: Desk, key: Key)
    requires
        d.view is List,
    ensures
        ({
            let asked = menuconfig::handled(t, d, Key::Char('q'));
            &&& !d.dirty ==> asked.1 is Quit
            &&& d.dirty ==> {
                &&& asked.1 is Continue
                &&& asked.0.view is ConfirmQuit
                &&& menuconfig::handled(t, asked.0, Key::Char('s')).1 is SaveAndQuit
                &&& menuconfig::handled(t, asked.0, Key::Char('q')).1 is Quit
                &&& key != Key::Char('s') && key != Key::Char('q') ==> menuconfig::handled(t, asked.0, key).1 is Continue
                    && menuconfig::handled(t, asked.0, key).0.view is List
            }
            &&& menuconfig::handled(t, d, Key::Char('s')).1 is Save
        }),
{
}

proof fn rows_hold_theirs(t: kcfg::Table, node: Spot, k: nat, i: int, x: Line)
    requires
        k <= t.symbols.len(),
        0 <= i < k,
        menuconfig::row_for(t, node, i) == Some(x),
    ensures
        menuconfig::rows(t, node, k).contains(x),
    decreases k,
{
    let before = menuconfig::rows(t, node, (k - 1) as nat);
    let all = menuconfig::rows(t, node, k);
    if i < k - 1 {
        rows_hold_theirs(t, node, (k - 1) as nat, i, x);
        let q = before.index_of(x);
        assert(all[q] == x);
    } else if !before.contains(x) {
        assert(all[before.len() as int] == x);
    }
}

proof fn rows_differ(t: kcfg::Table, node: Spot, k: nat)
    ensures
        forall|i: int, j: int|
            0 <= i < j < menuconfig::rows(t, node, k).len() ==> #[trigger] menuconfig::rows(t, node, k)[i]
                != #[trigger] menuconfig::rows(t, node, k)[j],
    decreases k,
{
    if k > 0 {
        rows_differ(t, node, (k - 1) as nat);
        let before = menuconfig::rows(t, node, (k - 1) as nat);
        let all = menuconfig::rows(t, node, k);
        assert forall|i: int, j: int| 0 <= i < j < all.len() implies #[trigger] all[i] != #[trigger] all[j] by {
            if j >= before.len() {
                assert(before.contains(before[i]));
            }
        }
    }
}

/// Every symbol has a row where it was declared: in its choice, else in its menu, else at the top. A
/// choice has one in its menu, or at the top, and no row stands twice.
pub proof fn symbols_stand_where_they_were_declared(t: kcfg::Table, i: int)
    requires
        kcfg::well_formed(t),
        0 <= i < t.symbols.len(),
    ensures
        ({
            let s = t.symbols[i];
            &&& s.choice is None && s.menu is None ==> menuconfig::all_rows(t, Spot::Root).contains(Line::Symbol(s.name))
            &&& s.choice is None && s.menu is Some ==> menuconfig::all_rows(t, Spot::Menu(s.menu->0)).contains(
                Line::Symbol(s.name),
            )
            &&& s.choice is Some ==> menuconfig::all_rows(t, Spot::Choice(s.choice->0)).contains(Line::Symbol(s.name))
            &&& s.choice is Some && menuconfig::menu_of(t, i) is None ==> menuconfig::all_rows(t, Spot::Root).contains(
                Line::Choice(s.choice->0),
            )
            &&& s.choice is Some && menuconfig::menu_of(t, i) is Some ==> menuconfig::all_rows(
                t,
                Spot::Menu(menuconfig::menu_of(t, i)->0),
            ).contains(Line::Choice(s.choice->0))
            &&& forall|a: int, b: int|
                0 <= a < b < menuconfig::all_rows(t, Spot::Root).len() ==> #[trigger] menuconfig::all_rows(
                    t,
                    Spot::Root,
                )[a] != #[trigger] menuconfig::all_rows(t, Spot::Root)[b]
        }),
{
    let s = t.symbols[i];
    let n = t.symbols.len();
    assert(kcfg::sym_sound(t, s));
    rows_differ(t, Spot::Root, n);
    let m = menuconfig::menu_of(t, i);
    if s.choice is Some {
        let c = kcfg::group_from(t.choices, s.choice->0, 0)->0;
        groups_stand(t.choices, s.choice->0, 0);
        assert(kcfg::menu_exists(t, t.choices[c].menu));
    }
    let menus = menuconfig::menu_chain(t, m);
    let c = menuconfig::chain(t, i);
    let k = menus.len() as int;
    if m is Some {
        menus_end_with_their_own(t, m->0);
        assert(c[k - 1] == Line::Menu(m->0));
        chains_hold_once(t, m, Line::Menu(m->0), k - 1);
        found_at(c, Line::Menu(m->0), k - 1, 0);
    } else {
        assert(k == 0);
    }
    if s.choice is None && s.menu is None {
        rows_hold_theirs(t, Spot::Root, n, i, Line::Symbol(s.name));
    }
    if s.choice is None && s.menu is Some {
        rows_hold_theirs(t, Spot::Menu(s.menu->0), n, i, Line::Symbol(s.name));
    }
    if s.choice is Some {
        let x = Line::Choice(s.choice->0);
        assert(c[k] == x);
        no_menu_is_a_choice(t, m, s.choice->0);
        assert forall|j: int| 0 <= j < k implies #[trigger] c[j] != x by {
            assert(c[j] == menus[j]);
        }
        found_at(c, x, k, 0);
        rows_hold_theirs(t, Spot::Choice(s.choice->0), n, i, Line::Symbol(s.name));
        if m is None {
            rows_hold_theirs(t, Spot::Root, n, i, x);
        } else {
            rows_hold_theirs(t, Spot::Menu(m->0), n, i, x);
        }
    }
}

proof fn groups_stand(a: Seq<kcfg::Group>, name: Seq<char>, i: int)
    requires
        0 <= i,
    ensures
        kcfg::group_from(a, name, i) is Some ==> i <= kcfg::group_from(a, name, i)->0 < a.len(),
    decreases a.len() - i,
{
    if i < a.len() && a[i].name != name {
        groups_stand(a, name, i + 1);
    }
}

proof fn found_at(c: Seq<Line>, x: Line, k: int, i: int)
    requires
        0 <= i <= k < c.len(),
        c[k] == x,
        forall|j: int| i <= j < k ==> #[trigger] c[j] != x,
    ensures
        menuconfig::position(c, x, i) == k,
    decreases k - i,
{
    if i < k {
        assert(c[i] != x);
        found_at(c, x, k, i + 1);
    }
}

proof fn menus_end_with_their_own(t: kcfg::Table, m: int)
    requires
        kcfg::well_formed(t),
        0 <= m < t.menus.len(),
    ensures
        menuconfig::menu_chain(t, Some(m)).len() > 0,
        menuconfig::menu_chain(t, Some(m)).last() == Line::Menu(m),
{
    let p = t.menus[m].parent;
    assert(p is Some ==> 0 <= p->0 < m);
}

proof fn chains_hold_once(t: kcfg::Table, m: Option<int>, x: Line, n: int)
    requires
        kcfg::well_formed(t),
        m is Some,
        0 <= m->0 < t.menus.len(),
        x == Line::Menu(m->0),
        n == menuconfig::menu_chain(t, m).len() - 1,
    ensures
        forall|j: int| 0 <= j < n ==> #[trigger] menuconfig::menu_chain(t, m)[j] != x,
{
    let k = m->0;
    let p = t.menus[k].parent;
    assert(p is Some ==> 0 <= p->0 < k);
    menus_are_earlier(t, p, k);
    let c = menuconfig::menu_chain(t, m);
    let before = menuconfig::menu_chain(t, p);
    assert forall|j: int| 0 <= j < n implies #[trigger] c[j] != x by {
        assert(c[j] == before[j]);
    }
}

proof fn menus_are_earlier(t: kcfg::Table, m: Option<int>, k: int)
    requires
        kcfg::well_formed(t),
        m is Some ==> 0 <= m->0 < k <= t.menus.len(),
    ensures
        forall|j: int|
            0 <= j < menuconfig::menu_chain(t, m).len() ==> (#[trigger] menuconfig::menu_chain(t, m)[j]) is Menu
                && menuconfig::menu_chain(t, m)[j]->Menu_0 < k,
    decreases match m {
        Some(q) => q + 1,
        None => 0,
    },
{
    if let Some(q) = m {
        let p = t.menus[q].parent;
        assert(p is Some ==> 0 <= p->0 < q);
        menus_are_earlier(t, p, q);
        let c = menuconfig::menu_chain(t, m);
        let before = menuconfig::menu_chain(t, p);
        assert forall|j: int| 0 <= j < c.len() implies (#[trigger] c[j]) is Menu && c[j]->Menu_0 < k by {
            if j < before.len() {
                assert(c[j] == before[j]);
            }
        }
    }
}

proof fn no_menu_is_a_choice(t: kcfg::Table, m: Option<int>, name: Seq<char>)
    requires
        kcfg::well_formed(t),
        m is Some ==> 0 <= m->0 < t.menus.len(),
    ensures
        forall|j: int|
            0 <= j < menuconfig::menu_chain(t, m).len() ==> #[trigger] menuconfig::menu_chain(t, m)[j] != Line::Choice(name),
{
    menus_are_earlier(t, m, t.menus.len() as int);
}

/// The keys of a terminal: the arrows by their sequences, enter and backspace under both of their bytes,
/// Ctrl-C as `q`, and every other printable byte as itself.
pub proof fn keys_are_read_from_their_bytes(b: Seq<u8>, i: int)
    requires
        0 <= i < b.len(),
    ensures
        ({
            let key = menuconfig::key_at(b, i);
            &&& i + 2 < b.len() && b[i] == 27 && (b[i + 1] == 0x5b || b[i + 1] == 0x4f) ==> {
                &&& b[i + 2] == 65 ==> key == (Some(Key::Up), i + 3)
                &&& b[i + 2] == 66 ==> key == (Some(Key::Down), i + 3)
                &&& b[i + 2] == 67 ==> key == (Some(Key::Right), i + 3)
                &&& b[i + 2] == 68 ==> key == (Some(Key::Left), i + 3)
            }
            &&& b[i] == 27 && i + 1 == b.len() ==> key == (Some(Key::Esc), i + 1)
            &&& b[i] == 13 || b[i] == 10 ==> key == (Some(Key::Enter), i + 1)
            &&& b[i] == 127 || b[i] == 8 ==> key == (Some(Key::Backspace), i + 1)
            &&& b[i] == 3 ==> key == (Some(Key::Char('q')), i + 1)
        }),
{
}

} // verus!
