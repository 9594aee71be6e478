//! `kbuild menuconfig`: edit a configuration in the terminal.
//!
//! [`Session`] is the editor. It holds the requests (the starting preset, then every change),
//! navigates menus and choices, and turns a key into a new request. Every change is re-resolved
//! before it is accepted, so the session can never hold a configuration the resolver would
//! refuse. A refused change leaves the configuration as it was and shows the resolver's own
//! explanation. [`Session::render`] draws a screen as a string.
//!
//! The preset a session saves is what a build uses: builds resolve from presets and `--set`,
//! never from `.config`.

use vstd::prelude::*;
use vstd::string::*;

use crate::kcfg;
use crate::kcfg::expr::Tri;
use crate::kcfg::resolve;
use crate::kcfg::resolve::{Reason, Request};
use crate::kcfg::{Kind, Resolution, SymbolTable, Val, MODULES};
use crate::text;

verus! {

/// A container in the menu tree.
#[derive(Debug, PartialEq)]
pub enum Node {
    Root,
    Menu(usize),
    Choice(String),
}

/// A container over mathematical values.
pub enum Spot {
    Root,
    Menu(int),
    Choice(Seq<char>),
}

impl View for Node {
    type V = Spot;

    open spec fn view(&self) -> Spot {
        match *self {
            Node::Root => Spot::Root,
            Node::Menu(m) => Spot::Menu(m as int),
            Node::Choice(c) => Spot::Choice(c@),
        }
    }
}

impl Clone for Node {
    fn clone(&self) -> (r: Node)
        ensures
            r@ == self@,
    {
        match self {
            Node::Root => Node::Root,
            Node::Menu(m) => Node::Menu(*m),
            Node::Choice(c) => Node::Choice(c.clone()),
        }
    }
}

/// One row of a container.
#[derive(Debug, PartialEq)]
pub enum Item {
    Symbol(String),
    Menu(usize),
    Choice(String),
}

/// A row over mathematical values.
pub enum Line {
    Symbol(Seq<char>),
    Menu(int),
    Choice(Seq<char>),
}

impl View for Item {
    type V = Line;

    open spec fn view(&self) -> Line {
        match *self {
            Item::Symbol(s) => Line::Symbol(s@),
            Item::Menu(m) => Line::Menu(m as int),
            Item::Choice(c) => Line::Choice(c@),
        }
    }
}

impl Clone for Item {
    fn clone(&self) -> (r: Item)
        ensures
            r@ == self@,
    {
        match self {
            Item::Symbol(s) => Item::Symbol(s.clone()),
            Item::Menu(m) => Item::Menu(*m),
            Item::Choice(c) => Item::Choice(c.clone()),
        }
    }
}

/// What a list of rows holds.
pub open spec fn lines_of(v: Seq<Item>) -> Seq<Line> {
    Seq::new(v.len(), |i: int| v[i]@)
}

#[derive(Clone, Copy, Debug, PartialEq)]
pub enum Key {
    Up,
    Down,
    Left,
    Right,
    Enter,
    Esc,
    Backspace,
    Char(char),
}

/// What the terminal layer must do after a key.
#[derive(Debug, PartialEq)]
pub enum Action {
    Continue,
    Save,
    SaveAndQuit,
    Quit,
}

// ---- the menu tree ----

/// The menus that enclose what stands in `m`, outermost first.
pub open spec fn menu_chain(t: kcfg::Table, m: Option<int>) -> Seq<Line>
    decreases match m {
        Some(k) => k + 1,
        None => 0,
    },
{
    match m {
        None => seq![],
        Some(k) => {
            let p = t.menus[k].parent;
            if 0 <= k < t.menus.len() && (p is Some ==> 0 <= p->0 < k) {
                menu_chain(t, p).push(Line::Menu(k))
            } else {
                seq![]
            }
        },
    }
}

/// The menu the symbol at `i` is shown in: that of its choice, if it has one.
pub open spec fn menu_of(t: kcfg::Table, i: int) -> Option<int> {
    let s = t.symbols[i];
    match s.choice {
        Some(c) => t.choices[kcfg::group_from(t.choices, c, 0)->0].menu,
        None => s.menu,
    }
}

/// The containers the symbol at `i` sits in, outermost first, and then the symbol.
pub open spec fn chain(t: kcfg::Table, i: int) -> Seq<Line> {
    let s = t.symbols[i];
    let menus = menu_chain(t, menu_of(t, i));
    match s.choice {
        Some(c) => menus.push(Line::Choice(c)).push(Line::Symbol(s.name)),
        None => menus.push(Line::Symbol(s.name)),
    }
}

/// The row that stands for a container in the container around it.
pub open spec fn row_of(node: Spot) -> Option<Line> {
    match node {
        Spot::Root => None,
        Spot::Menu(m) => Some(Line::Menu(m)),
        Spot::Choice(c) => Some(Line::Choice(c)),
    }
}

/// Where `x` stands in `c` from `i` on, or the end.
pub open spec fn position(c: Seq<Line>, x: Line, i: int) -> int
    decreases c.len() - i,
{
    if i < 0 || i >= c.len() || c[i] == x {
        i
    } else {
        position(c, x, i + 1)
    }
}

/// The row of `node` that leads to the symbol at `i`, if one does.
pub open spec fn row_for(t: kcfg::Table, node: Spot, i: int) -> Option<Line> {
    let c = chain(t, i);
    match row_of(node) {
        None => Some(c[0]),
        Some(x) => {
            let p = position(c, x, 0);
            if p + 1 < c.len() {
                Some(c[p + 1])
            } else {
                None
            }
        },
    }
}

/// The rows of `node` that lead to the first `k` symbols, each once, in declaration order.
pub open spec fn rows(t: kcfg::Table, node: Spot, k: nat) -> Seq<Line>
    decreases k,
{
    if k == 0 {
        seq![]
    } else {
        let before = rows(t, node, (k - 1) as nat);
        match row_for(t, node, k - 1) {
            Some(x) => if before.contains(x) {
                before
            } else {
                before.push(x)
            },
            None => before,
        }
    }
}

/// Every row of `node`.
pub open spec fn all_rows(t: kcfg::Table, node: Spot) -> Seq<Line> {
    rows(t, node, t.symbols.len())
}

/// Whether what a row names is in the table.
pub open spec fn line_exists(t: kcfg::Table, l: Line) -> bool {
    match l {
        Line::Symbol(s) => kcfg::sym_from(t.symbols, s, 0) is Some,
        Line::Menu(m) => 0 <= m < t.menus.len(),
        Line::Choice(c) => kcfg::group_from(t.choices, c, 0) is Some,
    }
}

/// Whether what a container names is in the table.
pub open spec fn spot_exists(t: kcfg::Table, s: Spot) -> bool {
    match row_of(s) {
        None => true,
        Some(l) => line_exists(t, l),
    }
}

proof fn menu_chain_exists(t: kcfg::Table, m: Option<int>)
    ensures
        forall|i: int| 0 <= i < menu_chain(t, m).len() ==> line_exists(t, #[trigger] menu_chain(t, m)[i]),
    decreases match m {
        Some(k) => k + 1,
        None => 0,
    },
{
    match m {
        None => {
            assert(menu_chain(t, m) =~= seq![]);
        },
        Some(k) => {
            let p = t.menus[k].parent;
            if 0 <= k < t.menus.len() && (p is Some ==> 0 <= p->0 < k) {
                menu_chain_exists(t, p);
                assert(menu_chain(t, m) == menu_chain(t, p).push(Line::Menu(k)));
            } else {
                assert(menu_chain(t, m) =~= seq![]);
            }
        },
    }
}

proof fn name_found(t: kcfg::Table, i: int, j: int)
    requires
        0 <= j <= i < t.symbols.len(),
    ensures
        kcfg::sym_from(t.symbols, t.symbols[i].name, j) is Some,
    decreases i - j,
{
    if t.symbols[j].name != t.symbols[i].name {
        name_found(t, i, j + 1);
    }
}

proof fn chain_exists(t: kcfg::Table, i: int)
    requires
        kcfg::well_formed(t),
        0 <= i < t.symbols.len(),
    ensures
        chain(t, i).len() > 0,
        forall|k: int| 0 <= k < chain(t, i).len() ==> line_exists(t, #[trigger] chain(t, i)[k]),
{
    menu_chain_exists(t, menu_of(t, i));
    name_found(t, i, 0);
    assert(kcfg::sym_sound(t, t.symbols[i]));
}

proof fn position_bounds(c: Seq<Line>, x: Line, i: int)
    requires
        0 <= i <= c.len(),
    ensures
        i <= position(c, x, i) <= c.len(),
    decreases c.len() - i,
{
    if i < c.len() && c[i] != x {
        position_bounds(c, x, i + 1);
    }
}

proof fn rows_exist(t: kcfg::Table, node: Spot, k: nat)
    requires
        kcfg::well_formed(t),
        k <= t.symbols.len(),
    ensures
        forall|i: int| 0 <= i < rows(t, node, k).len() ==> line_exists(t, #[trigger] rows(t, node, k)[i]),
    decreases k,
{
    if k > 0 {
        rows_exist(t, node, (k - 1) as nat);
        chain_exists(t, k - 1);
        match row_of(node) {
            Some(x) => {
                position_bounds(chain(t, k - 1), x, 0);
            },
            None => {},
        }
        let before = rows(t, node, (k - 1) as nat);
        assert forall|i: int| 0 <= i < rows(t, node, k).len() implies line_exists(t, #[trigger] rows(t, node, k)[i]) by {
            if i < before.len() {
                assert(rows(t, node, k)[i] == before[i]);
            }
        }
    } else {
        assert(rows(t, node, k) =~= seq![]);
    }
}

fn same_item(a: &Item, b: &Item) -> (r: bool)
    ensures
        r == (a@ == b@),
{
    match (a, b) {
        (Item::Symbol(x), Item::Symbol(y)) => *x == *y,
        (Item::Menu(x), Item::Menu(y)) => *x == *y,
        (Item::Choice(x), Item::Choice(y)) => *x == *y,
        _ => false,
    }
}

fn menu_items(table: &SymbolTable, m: Option<usize>) -> (r: Vec<Item>)
    requires
        kcfg::well_formed(table@),
        kcfg::menu_exists(table@, kcfg::opt_index(m)),
    ensures
        lines_of(r@) == menu_chain(table@, kcfg::opt_index(m)),
    decreases match m {
        Some(k) => k + 1,
        None => 0,
    },
{
    match m {
        None => {
            let r: Vec<Item> = Vec::new();
            assert(lines_of(r@) =~= seq![]);
            r
        },
        Some(k) => {
            assert(table@.menus[k as int] == table.menus@[k as int]@);
            let mut r = menu_items(table, table.menus[k].parent);
            let ghost before = lines_of(r@);
            r.push(Item::Menu(k));
            assert(lines_of(r@) =~= before.push(Line::Menu(k as int)));
            r
        },
    }
}

fn chain_items(table: &SymbolTable, i: usize) -> (r: Vec<Item>)
    requires
        kcfg::well_formed(table@),
        i < table.symbols@.len(),
    ensures
        lines_of(r@) == chain(table@, i as int),
{
    let sym = &table.symbols[i];
    assert(table@.symbols[i as int] == sym@);
    assert(kcfg::sym_sound(table@, table@.symbols[i as int]));
    let menu = match &sym.choice {
        Some(c) => match table.choice_index(c.as_str()) {
            Some(k) => {
                assert(table@.choices[k as int] == table.choices@[k as int]@);
                table.choices[k].menu
            },
            None => None,
        },
        None => sym.menu,
    };
    let mut r = menu_items(table, menu);
    let ghost menus = lines_of(r@);
    match &sym.choice {
        Some(c) => {
            r.push(Item::Choice(c.clone()));
            assert(lines_of(r@) =~= menus.push(Line::Choice(c@)));
        },
        None => {},
    }
    let ghost before = lines_of(r@);
    r.push(Item::Symbol(sym.name.clone()));
    assert(lines_of(r@) =~= before.push(Line::Symbol(sym.name@)));
    r
}

fn find_item(c: &Vec<Item>, x: &Item) -> (r: usize)
    ensures
        r == position(lines_of(c@), x@, 0),
        r <= c@.len(),
{
    let mut i: usize = 0;
    while i < c.len()
        invariant
            i <= c@.len(),
            position(lines_of(c@), x@, 0) == position(lines_of(c@), x@, i as int),
        decreases c@.len() - i,
    {
        assert(lines_of(c@)[i as int] == c@[i as int]@);
        if same_item(&c[i], x) {
            return i;
        }
        i += 1;
    }
    i
}

proof fn position_means_contained(c: Seq<Line>, x: Line, i: int)
    requires
        0 <= i <= c.len(),
        forall|k: int| 0 <= k < i ==> c[k] != x,
    ensures
        c.contains(x) <==> position(c, x, i) < c.len(),
    decreases c.len() - i,
{
    if i < c.len() && c[i] != x {
        position_means_contained(c, x, i + 1);
    } else if i < c.len() {
        assert(c.contains(x));
    }
}

fn item_for(table: &SymbolTable, node: &Node, i: usize) -> (r: Option<Item>)
    requires
        kcfg::well_formed(table@),
        i < table.symbols@.len(),
    ensures
        match r {
            Some(x) => row_for(table@, node@, i as int) == Some(x@),
            None => row_for(table@, node@, i as int) is None,
        },
{
    let c = chain_items(table, i);
    let ghost lines = lines_of(c@);
    proof {
        chain_exists(table@, i as int);
    }
    let inner = match node {
        Node::Root => {
            assert(lines[0] == c@[0]@);
            return Some(c[0].clone());
        },
        Node::Menu(m) => Item::Menu(*m),
        Node::Choice(n) => Item::Choice(n.clone()),
    };
    let p: usize = find_item(&c, &inner);
    if p < c.len() - 1 {
        assert(lines[p + 1] == c@[p + 1]@);
        Some(c[p + 1].clone())
    } else {
        None
    }
}

fn find_items(table: &SymbolTable, node: &Node) -> (out: Vec<Item>)
    requires
        kcfg::well_formed(table@),
    ensures
        lines_of(out@) == all_rows(table@, node@),
{
    let mut out: Vec<Item> = Vec::new();
    let mut i: usize = 0;
    assert(lines_of(out@) =~= seq![]);
    while i < table.symbols.len()
        invariant
            i <= table.symbols@.len(),
            kcfg::well_formed(table@),
            lines_of(out@) == rows(table@, node@, i as nat),
        decreases table.symbols@.len() - i,
    {
        let ghost before = lines_of(out@);
        match item_for(table, node, i) {
            Some(x) => {
                proof {
                    position_means_contained(before, x@, 0);
                }
                if find_item(&out, &x) == out.len() {
                    let ghost l = x@;
                    out.push(x);
                    assert(lines_of(out@) =~= before.push(l));
                }
            },
            None => {},
        }
        i += 1;
    }
    out
}

// ---- the session ----

enum Screen {
    List,
    Help(String),
    Why(String),
    Edit { symbol: String, buffer: String },
    ConfirmQuit,
}

/// What the screen shows, over mathematical strings.
pub enum Pane {
    List,
    Help(Seq<char>),
    Why(Seq<char>),
    Edit(Seq<char>, Seq<char>),
    ConfirmQuit,
}

spec fn pane(s: Screen) -> Pane {
    match s {
        Screen::List => Pane::List,
        Screen::Help(n) => Pane::Help(n@),
        Screen::Why(n) => Pane::Why(n@),
        Screen::Edit { symbol, buffer } => Pane::Edit(symbol@, buffer@),
        Screen::ConfirmQuit => Pane::ConfirmQuit,
    }
}

pub struct Session<'t> {
    table: &'t SymbolTable,
    base: Vec<Request>,
    changes: Vec<Request>,
    res: Resolution,
    /// Open containers, outermost first, each with its cursor.
    stack: Vec<(Node, usize)>,
    view: Screen,
    status: Vec<String>,
    dirty: bool,
}

/// A session over mathematical values: what it started from, what was changed since, the
/// configuration that gives, the open containers with their cursors, what is shown, what
/// the status line says, and whether anything is unsaved.
pub struct Desk {
    pub base: Seq<resolve::Ask>,
    pub changes: Seq<resolve::Ask>,
    pub o: resolve::Outcome,
    pub stack: Seq<(Spot, int)>,
    pub view: Pane,
    pub status: Seq<Seq<char>>,
    pub dirty: bool,
}

spec fn spots(v: Seq<(Node, usize)>) -> Seq<(Spot, int)> {
    Seq::new(v.len(), |i: int| (v[i].0@, v[i].1 as int))
}

impl<'t> View for Session<'t> {
    type V = Desk;

    closed spec fn view(&self) -> Desk {
        Desk {
            base: resolve::asks(self.base@),
            changes: resolve::asks(self.changes@),
            o: self.res@,
            stack: spots(self.stack@),
            view: pane(self.view),
            status: text::views(self.status@),
            dirty: self.dirty,
        }
    }
}

/// How a session's changes are attributed.
pub const SOURCE: &'static str = "menuconfig";

/// Every request, base first; later ones override earlier ones for a symbol.
pub open spec fn requested(d: Desk) -> Seq<resolve::Ask> {
    d.base + d.changes
}

/// Whether what is shown is about a symbol of the table, if it is about one.
pub open spec fn pane_exists(t: kcfg::Table, p: Pane) -> bool {
    match p {
        Pane::Help(s) => kcfg::sym_from(t.symbols, s, 0) is Some,
        Pane::Why(s) => kcfg::sym_from(t.symbols, s, 0) is Some,
        Pane::Edit(s, _) => kcfg::sym_from(t.symbols, s, 0) is Some,
        _ => true,
    }
}

/// What holds of a session at every moment: its configuration is what its requests resolve
/// to, the root is open, every open container is in the table, and the cursor of each is on
/// one of its rows or, where it has none, at the top.
pub open spec fn sound(t: kcfg::Table, d: Desk) -> bool {
    &&& kcfg::well_formed(t)
    &&& resolve::resolved(t, requested(d)) == Ok::<resolve::Outcome, Seq<resolve::Fault>>(d.o)
    &&& d.stack.len() > 0
    &&& forall|i: int| 0 <= i < d.stack.len() ==> spot_sound(t, #[trigger] d.stack[i])
    &&& pane_exists(t, d.view)
}

/// An open container with its cursor.
pub open spec fn spot_sound(t: kcfg::Table, s: (Spot, int)) -> bool {
    spot_exists(t, s.0) && 0 <= s.1 && (s.1 < all_rows(t, s.0).len() || s.1 == 0)
}

/// The row under the cursor.
pub open spec fn current(t: kcfg::Table, d: Desk) -> Option<Line> {
    let (node, cursor) = d.stack.last();
    let r = all_rows(t, node);
    if 0 <= cursor < r.len() {
        Some(r[cursor])
    } else {
        None
    }
}

/// Why a symbol cannot be set at all, if it cannot.
pub open spec fn why_not(t: kcfg::Table, name: Seq<char>) -> Option<Seq<char>> {
    let s = t.symbols[resolve::place_of(t, name)];
    if s.readonly {
        Some(name + " is readonly: it describes the hardware, not what to build"@)
    } else if s.prompt is None {
        Some(name + " has no prompt: it is derived from other symbols"@)
    } else {
        None
    }
}

/// What the last of the first `k` requests for `name` asks.
pub open spec fn last_text(asked: Seq<resolve::Ask>, name: Seq<char>, k: nat) -> Option<Seq<char>>
    decreases k,
{
    if k == 0 {
        None
    } else if asked[k - 1].symbol == name {
        Some(asked[k - 1].text)
    } else {
        last_text(asked, name, (k - 1) as nat)
    }
}

/// Turning off those of the first `k` members, other than `name`, that were asked to be on.
pub open spec fn others_off(
    asked: Seq<resolve::Ask>,
    members: Seq<Seq<char>>,
    name: Seq<char>,
    k: nat,
) -> Seq<(Seq<char>, Seq<char>)>
    decreases k,
{
    if k == 0 {
        seq![]
    } else {
        let before = others_off(asked, members, name, (k - 1) as nat);
        let m = members[k - 1];
        if m != name && last_text(asked, m, asked.len()) == Some("y"@) {
            before.push((m, "n"@))
        } else {
            before
        }
    }
}

/// What asking for `name=text` sets: picking a choice member also sets `n` on the member
/// that was asked for before, so the new pick is not two voices in one choice.
pub open spec fn settings(t: kcfg::Table, d: Desk, name: Seq<char>, txt: Seq<char>) -> Seq<(Seq<char>, Seq<char>)> {
    let s = t.symbols[resolve::place_of(t, name)];
    if s.choice is Some && txt == "y"@ {
        let g = t.choices[kcfg::group_from(t.choices, s.choice->0, 0)->0];
        seq![(name, txt)] + others_off(requested(d), g.members, name, g.members.len())
    } else {
        seq![(name, txt)]
    }
}

/// Whether one of `sets` is about `name`.
pub open spec fn is_set(sets: Seq<(Seq<char>, Seq<char>)>, name: Seq<char>) -> bool {
    exists|k: int| 0 <= k < sets.len() && (#[trigger] sets[k]).0 == name
}

/// Those of the first `k` changes that `sets` says nothing about.
pub open spec fn kept(changes: Seq<resolve::Ask>, sets: Seq<(Seq<char>, Seq<char>)>, k: nat) -> Seq<resolve::Ask>
    decreases k,
{
    if k == 0 {
        seq![]
    } else {
        let before = kept(changes, sets, (k - 1) as nat);
        if is_set(sets, changes[k - 1].symbol) {
            before
        } else {
            before.push(changes[k - 1])
        }
    }
}

/// The requests that `sets` makes.
pub open spec fn set_asks(sets: Seq<(Seq<char>, Seq<char>)>) -> Seq<resolve::Ask> {
    Seq::new(sets.len(), |i: int| resolve::Ask { symbol: sets[i].0, text: sets[i].1, source: SOURCE@ })
}

/// The changes with `sets` made.
pub open spec fn changed(d: Desk, sets: Seq<(Seq<char>, Seq<char>)>) -> Seq<resolve::Ask> {
    kept(d.changes, sets, d.changes.len()) + set_asks(sets)
}

/// The session after `sets`, which the symbol called `name` was changed by: if the whole no
/// longer resolves, nothing changes but the status, which says why.
pub open spec fn applied(t: kcfg::Table, d: Desk, name: Seq<char>, sets: Seq<(Seq<char>, Seq<char>)>) -> Desk {
    match why_not(t, name) {
        Some(w) => Desk { status: seq![w], ..d },
        None => {
            let changes = changed(d, sets);
            match resolve::resolved(t, d.base + changes) {
                Ok(o) => Desk {
                    o,
                    changes,
                    dirty: true,
                    status: seq![name + " = "@ + kcfg::written(o.vals[resolve::place_of(t, name)])],
                    ..d
                },
                Err(e) => Desk { status: text::lines(resolve::fault_text(e[0]), 0), ..d },
            }
        },
    }
}

/// The session after `name=text` was asked for.
pub open spec fn set_to(t: kcfg::Table, d: Desk, name: Seq<char>, txt: Seq<char>) -> Desk {
    applied(t, d, name, settings(t, d, name, txt))
}

/// The session after enter or space on a symbol: toggle a bool, step a tristate, pick a
/// choice member, or start editing a value.
pub open spec fn activated(t: kcfg::Table, d: Desk, name: Seq<char>) -> Desk {
    let i = resolve::place_of(t, name);
    let s = t.symbols[i];
    let now = kcfg::truth(d.o.vals[i]);
    match s.kind {
        Kind::Bool => set_to(
            t,
            d,
            name,
            if s.choice is Some || now == Tri::N {
                "y"@
            } else {
                "n"@
            },
        ),
        Kind::Tristate => set_to(
            t,
            d,
            name,
            match now {
                Tri::N => if resolve::tri_in(d.o.names, d.o.vals, MODULES@) == Tri::Y {
                    "m"@
                } else {
                    "y"@
                },
                Tri::M => "y"@,
                Tri::Y => "n"@,
            },
        ),
        _ => match why_not(t, name) {
            Some(w) => Desk { status: seq![w], ..d },
            None => Desk { view: Pane::Edit(name, kcfg::literal(d.o.vals[i])), ..d },
        },
    }
}

/// `d` with the cursor of the innermost container moved.
pub open spec fn cursor_at(d: Desk, c: int) -> Desk {
    Desk { stack: d.stack.update(d.stack.len() - 1, (d.stack.last().0, c)), ..d }
}

/// `d` with the innermost container left, unless it is the root.
pub open spec fn left(d: Desk) -> Desk {
    if d.stack.len() > 1 {
        Desk { stack: d.stack.drop_last(), ..d }
    } else {
        d
    }
}

/// `d` with the row under the cursor opened or changed.
pub open spec fn opened(t: kcfg::Table, d: Desk) -> Desk {
    match current(t, d) {
        Some(Line::Menu(m)) => Desk { stack: d.stack.push((Spot::Menu(m), 0)), ..d },
        Some(Line::Choice(c)) => Desk { stack: d.stack.push((Spot::Choice(c), 0)), ..d },
        Some(Line::Symbol(s)) => activated(t, d, s),
        None => d,
    }
}

/// What a key does while the list is shown.
pub open spec fn listed_key(t: kcfg::Table, d: Desk, key: Key) -> (Desk, Action) {
    let (node, cursor) = d.stack.last();
    let last = if all_rows(t, node).len() > 0 {
        all_rows(t, node).len() - 1
    } else {
        0
    };
    let up = cursor_at(
        d,
        if cursor > 0 {
            cursor - 1
        } else {
            0
        },
    );
    let down = cursor_at(
        d,
        if cursor < last {
            cursor + 1
        } else {
            last
        },
    );
    let symbol = match current(t, d) {
        Some(Line::Symbol(s)) => Some(s),
        _ => None,
    };
    match key {
        Key::Up => (up, Action::Continue),
        Key::Down => (down, Action::Continue),
        Key::Left => (left(d), Action::Continue),
        Key::Esc => (left(d), Action::Continue),
        Key::Backspace => (left(d), Action::Continue),
        Key::Right => (opened(t, d), Action::Continue),
        Key::Enter => (opened(t, d), Action::Continue),
        Key::Char(c) => if c == 'k' {
            (up, Action::Continue)
        } else if c == 'j' {
            (down, Action::Continue)
        } else if c == 'h' {
            (left(d), Action::Continue)
        } else if c == 'l' {
            (opened(t, d), Action::Continue)
        } else if c == ' ' {
            (
                match symbol {
                    Some(s) => activated(t, d, s),
                    None => d,
                },
                Action::Continue,
            )
        } else if c == 'y' || c == 'n' || c == 'm' {
            (
                match symbol {
                    Some(s) => set_to(t, d, s, seq![c]),
                    None => d,
                },
                Action::Continue,
            )
        } else if c == '?' {
            (
                match symbol {
                    Some(s) => Desk { view: Pane::Help(s), ..d },
                    None => d,
                },
                Action::Continue,
            )
        } else if c == 'w' {
            (
                match symbol {
                    Some(s) => Desk { view: Pane::Why(s), ..d },
                    None => d,
                },
                Action::Continue,
            )
        } else if c == 's' {
            (d, Action::Save)
        } else if c == 'q' {
            if d.dirty {
                (Desk { view: Pane::ConfirmQuit, ..d }, Action::Continue)
            } else {
                (d, Action::Quit)
            }
        } else {
            (d, Action::Continue)
        },
    }
}

/// What a key does.
pub open spec fn handled(t: kcfg::Table, d: Desk, key: Key) -> (Desk, Action) {
    let list = Desk { view: Pane::List, ..d };
    match d.view {
        Pane::List => listed_key(t, d, key),
        Pane::Help(_) => (list, Action::Continue),
        Pane::Why(_) => (list, Action::Continue),
        Pane::ConfirmQuit => if key == Key::Char('s') {
            (list, Action::SaveAndQuit)
        } else if key == Key::Char('q') {
            (list, Action::Quit)
        } else {
            (Desk { status: seq!["not quitting"@], ..list }, Action::Continue)
        },
        Pane::Edit(symbol, buffer) => match key {
            Key::Enter => (applied(t, list, symbol, seq![(symbol, buffer)]), Action::Continue),
            Key::Esc => (Desk { status: seq![symbol + " unchanged"@], ..list }, Action::Continue),
            Key::Backspace => (
                Desk {
                    view: Pane::Edit(
                        symbol,
                        if buffer.len() > 0 {
                            buffer.drop_last()
                        } else {
                            buffer
                        },
                    ),
                    ..d
                },
                Action::Continue,
            ),
            Key::Char(c) => (Desk { view: Pane::Edit(symbol, buffer.push(c)), ..d }, Action::Continue),
            _ => (d, Action::Continue),
        },
    }
}

/// A refused change leaves the configuration and the requests as they were.
pub proof fn refused_changes_change_nothing(
    t: kcfg::Table,
    d: Desk,
    name: Seq<char>,
    sets: Seq<(Seq<char>, Seq<char>)>,
)
    requires
        why_not(t, name) is Some || resolve::resolved(t, d.base + changed(d, sets)) is Err,
    ensures
        applied(t, d, name, sets).o == d.o,
        requested(applied(t, d, name, sets)) == requested(d),
        applied(t, d, name, sets).dirty == d.dirty,
{
}

proof fn applied_is_sound(t: kcfg::Table, d: Desk, name: Seq<char>, sets: Seq<(Seq<char>, Seq<char>)>)
    requires
        sound(t, d),
    ensures
        sound(t, applied(t, d, name, sets)),
{
}

proof fn activated_is_sound(t: kcfg::Table, d: Desk, name: Seq<char>)
    requires
        sound(t, d),
        kcfg::sym_from(t.symbols, name, 0) is Some,
    ensures
        sound(t, activated(t, d, name)),
{
}

proof fn opened_is_sound(t: kcfg::Table, d: Desk)
    requires
        sound(t, d),
    ensures
        sound(t, opened(t, d)),
{
    let (node, cursor) = d.stack.last();
    rows_exist(t, node, t.symbols.len());
    if let Some(l) = current(t, d) {
        assert(line_exists(t, all_rows(t, node)[cursor]));
        match l {
            Line::Symbol(s) => activated_is_sound(t, d, s),
            Line::Menu(m) => {
                let n = opened(t, d);
                assert forall|i: int| 0 <= i < n.stack.len() implies spot_sound(t, #[trigger] n.stack[i]) by {
                    if i < d.stack.len() {
                        assert(spot_sound(t, d.stack[i]));
                    }
                }
            },
            Line::Choice(c) => {
                let n = opened(t, d);
                assert forall|i: int| 0 <= i < n.stack.len() implies spot_sound(t, #[trigger] n.stack[i]) by {
                    if i < d.stack.len() {
                        assert(spot_sound(t, d.stack[i]));
                    }
                }
            },
        }
    }
}

proof fn cursor_is_sound(t: kcfg::Table, d: Desk, c: int)
    requires
        sound(t, d),
        0 <= c,
        c < all_rows(t, d.stack.last().0).len() || c == 0,
    ensures
        sound(t, cursor_at(d, c)),
{
    let n = cursor_at(d, c);
    assert(spot_sound(t, d.stack[d.stack.len() - 1]));
    assert forall|i: int| 0 <= i < n.stack.len() implies spot_sound(t, #[trigger] n.stack[i]) by {
        assert(spot_sound(t, d.stack[i]));
    }
}

proof fn left_is_sound(t: kcfg::Table, d: Desk)
    requires
        sound(t, d),
    ensures
        sound(t, left(d)),
{
    let n = left(d);
    assert forall|i: int| 0 <= i < n.stack.len() implies spot_sound(t, #[trigger] n.stack[i]) by {
        assert(spot_sound(t, d.stack[i]));
    }
}

proof fn pane_is_sound(t: kcfg::Table, d: Desk, view: Pane, status: Seq<Seq<char>>)
    requires
        sound(t, d),
        pane_exists(t, view),
    ensures
        sound(t, Desk { view, status, ..d }),
{
    assert(requested(Desk { view, status, ..d }) == requested(d));
}

#[verifier::spinoff_prover]
proof fn listed_stays_sound(t: kcfg::Table, d: Desk, key: Key)
    requires
        sound(t, d),
    ensures
        sound(t, listed_key(t, d, key).0),
{
    let (node, cursor) = d.stack.last();
    assert(spot_sound(t, d.stack[d.stack.len() - 1]));
    let last = if all_rows(t, node).len() > 0 {
        all_rows(t, node).len() - 1
    } else {
        0
    };
    cursor_is_sound(
        t,
        d,
        if cursor > 0 {
            cursor - 1
        } else {
            0
        },
    );
    cursor_is_sound(
        t,
        d,
        if cursor < last {
            cursor + 1
        } else {
            last
        },
    );
    left_is_sound(t, d);
    opened_is_sound(t, d);
    pane_is_sound(t, d, Pane::ConfirmQuit, d.status);
    rows_exist(t, node, t.symbols.len());
    if let Some(Line::Symbol(s)) = current(t, d) {
        assert(line_exists(t, all_rows(t, node)[cursor]));
        activated_is_sound(t, d, s);
        if let Key::Char(c) = key {
            applied_is_sound(t, d, s, settings(t, d, s, seq![c]));
        }
        pane_is_sound(t, d, Pane::Help(s), d.status);
        pane_is_sound(t, d, Pane::Why(s), d.status);
    }
}

/// A session never holds a configuration the resolver would refuse: whatever the key, what
/// it holds after it is what its requests resolve to.
pub proof fn sessions_stay_sound(t: kcfg::Table, d: Desk, key: Key)
    requires
        sound(t, d),
    ensures
        sound(t, handled(t, d, key).0),
{
    let list = Desk { view: Pane::List, ..d };
    pane_is_sound(t, d, Pane::List, d.status);
    match d.view {
        Pane::List => listed_stays_sound(t, d, key),
        Pane::ConfirmQuit => pane_is_sound(t, d, Pane::List, seq!["not quitting"@]),
        Pane::Edit(symbol, buffer) => {
            applied_is_sound(t, list, symbol, seq![(symbol, buffer)]);
            pane_is_sound(t, d, Pane::List, seq![symbol + " unchanged"@]);
            pane_is_sound(
                t,
                d,
                Pane::Edit(
                    symbol,
                    if buffer.len() > 0 {
                        buffer.drop_last()
                    } else {
                        buffer
                    },
                ),
                d.status,
            );
            if let Key::Char(c) = key {
                pane_is_sound(t, d, Pane::Edit(symbol, buffer.push(c)), d.status);
            }
        },
        _ => {},
    }
}

fn copy_all(requests: &[Request]) -> (r: Vec<Request>)
    ensures
        resolve::asks(r@) == resolve::asks(requests@),
{
    let mut r: Vec<Request> = Vec::new();
    let mut i: usize = 0;
    while i < requests.len()
        invariant
            i <= requests@.len(),
            r@.len() == i,
            forall|k: int| 0 <= k < i ==> (#[trigger] r@[k])@ == requests@[k]@,
        decreases requests@.len() - i,
    {
        r.push(requests[i].clone());
        i += 1;
    }
    assert(resolve::asks(r@) =~= resolve::asks(requests@));
    r
}

fn copy_behind(base: &Vec<Request>, changes: &Vec<Request>) -> (r: Vec<Request>)
    ensures
        resolve::asks(r@) == resolve::asks(base@) + resolve::asks(changes@),
{
    let mut r = copy_all(base.as_slice());
    let mut c = copy_all(changes.as_slice());
    let ghost (x, y) = (r@, c@);
    r.append(&mut c);
    assert(resolve::asks(r@) =~= resolve::asks(x) + resolve::asks(y));
    r
}

fn one_line(s: String) -> (r: Vec<String>)
    ensures
        text::views(r@) == seq![s@],
{
    let mut r: Vec<String> = Vec::new();
    r.push(s);
    assert(text::views(r@) =~= seq![s@]);
    r
}

fn line_strings(s: &str) -> (r: Vec<String>)
    ensures
        text::views(r@) == text::lines(s@, 0),
{
    let c = text::chars(s);
    let ls = text::split_lines(c.as_slice());
    let ghost v = text::char_views(ls@);
    let mut r: Vec<String> = Vec::new();
    let mut i: usize = 0;
    while i < ls.len()
        invariant
            i <= ls@.len(),
            v == text::char_views(ls@),
            r@.len() == i,
            forall|k: int| 0 <= k < i ==> (#[trigger] r@[k])@ == v[k],
        decreases ls@.len() - i,
    {
        assert(v[i as int] == ls@[i as int]@);
        r.push(text::string(ls[i].as_slice()));
        i += 1;
    }
    assert(text::views(r@) =~= v);
    r
}

fn first_error(errs: &Vec<resolve::ResolveError>) -> (r: String)
    requires
        errs@.len() > 0,
    ensures
        r@ == resolve::fault_text(errs@[0]@),
{
    errs[0].to_text()
}

spec fn set_views(v: Seq<(String, String)>) -> Seq<(Seq<char>, Seq<char>)> {
    Seq::new(v.len(), |i: int| (v[i].0@, v[i].1@))
}

fn sets_name(sets: &Vec<(String, String)>, name: &String) -> (r: bool)
    ensures
        r == is_set(set_views(sets@), name@),
{
    let mut k: usize = 0;
    while k < sets.len()
        invariant
            k <= sets@.len(),
            forall|j: int| 0 <= j < k ==> (#[trigger] set_views(sets@)[j]).0 != name@,
        decreases sets@.len() - k,
    {
        if sets[k].0 == *name {
            assert(set_views(sets@)[k as int].0 == name@);
            return true;
        }
        k += 1;
    }
    false
}

fn last_asked(asked: &Vec<Request>, name: &String) -> (r: Option<String>)
    ensures
        kcfg::opt_text(r) == last_text(resolve::asks(asked@), name@, asked@.len()),
{
    let mut k: usize = asked.len();
    while k > 0
        invariant
            k <= asked@.len(),
            last_text(resolve::asks(asked@), name@, asked@.len()) == last_text(
                resolve::asks(asked@),
                name@,
                k as nat,
            ),
        decreases k,
    {
        assert(resolve::asks(asked@)[k - 1] == asked@[k - 1]@);
        if asked[k - 1].symbol == *name {
            return Some(asked[k - 1].text.clone());
        }
        k -= 1;
    }
    None
}

impl<'t> Session<'t> {
    /// The table the session works on.
    pub closed spec fn on(&self) -> kcfg::Table {
        self.table@
    }

    /// Start from `base`, which must resolve.
    pub fn new(table: &'t SymbolTable, base: Vec<Request>) -> (r: Result<Session<'t>, String>)
        requires
            kcfg::well_formed(table@),
        ensures
            match r {
                Ok(s) => resolve::resolved(table@, resolve::asks(base@)) == Ok::<
                    resolve::Outcome,
                    Seq<resolve::Fault>,
                >(s@.o) && s.on() == table@ && s@ == (Desk {
                    base: resolve::asks(base@),
                    changes: seq![],
                    o: s@.o,
                    stack: seq![(Spot::Root, 0)],
                    view: Pane::List,
                    status: seq![],
                    dirty: false,
                }) && sound(table@, s@),
                Err(m) => resolve::resolved(table@, resolve::asks(base@)) is Err && m@ == resolve::fault_text(
                    resolve::resolved(table@, resolve::asks(base@))->Err_0[0],
                ),
            },
    {
        let res = match resolve::resolve(table, base.as_slice()) {
            Ok(r) => r,
            Err(e) => return Err(first_error(&e)),
        };
        let mut stack: Vec<(Node, usize)> = Vec::new();
        stack.push((Node::Root, 0));
        let s = Session {
            table,
            base,
            changes: Vec::new(),
            res,
            stack,
            view: Screen::List,
            status: Vec::new(),
            dirty: false,
        };
        assert(s@.changes =~= seq![]);
        assert(s@.stack =~= seq![(Spot::Root, 0)]);
        assert(s@.status =~= seq![]);
        assert(requested(s@) =~= resolve::asks(base@));
        Ok(s)
    }

    pub fn resolution(&self) -> (r: &Resolution)
        ensures
            r@ == self@.o,
    {
        &self.res
    }

    /// Every request, base first; later ones override earlier ones for a symbol.
    pub fn requests(&self) -> (r: Vec<Request>)
        ensures
            resolve::asks(r@) == requested(self@),
    {
        copy_behind(&self.base, &self.changes)
    }

    /// The rows of `node`, in declaration order.
    pub fn items(&self, node: &Node) -> (r: Vec<Item>)
        requires
            kcfg::well_formed(self.on()),
        ensures
            lines_of(r@) == all_rows(self.on(), node@),
    {
        find_items(self.table, node)
    }

    fn current(&self) -> (r: Option<Item>)
        requires
            sound(self.on(), self@),
        ensures
            match r {
                Some(x) => current(self.on(), self@) == Some(x@),
                None => current(self.on(), self@) is None,
            },
    {
        let n: usize = self.stack.len();
        assert(self@.stack.len() == n);
        assert(self@.stack.last() == (self.stack@[n - 1].0@, self.stack@[n - 1].1 as int));
        assert(spot_sound(self.on(), self@.stack[n - 1]));
        let items = self.items(&self.stack[n - 1].0);
        let cursor: usize = self.stack[n - 1].1;
        if cursor < items.len() {
            assert(lines_of(items@)[cursor as int] == items@[cursor as int]@);
            Some(items[cursor].clone())
        } else {
            None
        }
    }

    fn unsettable(&self, name: &str) -> (r: Option<String>)
        requires
            kcfg::sym_from(self.on().symbols, name@, 0) is Some,
        ensures
            kcfg::opt_text(r) == why_not(self.on(), name@),
    {
        match self.table.get(name) {
            Some(sym) => {
                if sym.readonly {
                    let mut m = name.to_owned();
                    m.append(" is readonly: it describes the hardware, not what to build");
                    Some(m)
                } else if sym.prompt.is_none() {
                    let mut m = name.to_owned();
                    m.append(" has no prompt: it is derived from other symbols");
                    Some(m)
                } else {
                    None
                }
            },
            None => None,
        }
    }

    fn apply(&mut self, name: &str, sets: &Vec<(String, String)>)
        requires
            sound(old(self).on(), old(self)@),
            kcfg::sym_from(old(self).on().symbols, name@, 0) is Some,
        ensures
            final(self)@ == applied(old(self).on(), old(self)@, name@, set_views(sets@)),
            final(self).on() == old(self).on(),
            sound(final(self).on(), final(self)@),
    {
        let ghost t = self.on();
        let ghost d = self@;
        let ghost v = set_views(sets@);
        proof {
            applied_is_sound(t, d, name@, v);
        }
        match self.unsettable(name) {
            Some(why) => {
                self.status = one_line(why);
                return;
            },
            None => {},
        }
        let mut changes: Vec<Request> = Vec::new();
        let mut k: usize = 0;
        assert(resolve::asks(changes@) =~= seq![]);
        while k < self.changes.len()
            invariant
                k <= self.changes@.len(),
                v == set_views(sets@),
                self@ == d,
                self.on() == t,
                resolve::asks(changes@) == kept(d.changes, v, k as nat),
            decreases self.changes@.len() - k,
        {
            assert(d.changes[k as int] == self.changes@[k as int]@);
            let ghost before = resolve::asks(changes@);
            if !sets_name(sets, &self.changes[k].symbol) {
                let c = self.changes[k].clone();
                let ghost a = c@;
                changes.push(c);
                assert(resolve::asks(changes@) =~= before.push(a));
            }
            k += 1;
        }
        let ghost keep = resolve::asks(changes@);
        let ghost all = set_asks(v);
        let mut k: usize = 0;
        assert(keep + all.subrange(0, 0) =~= keep);
        while k < sets.len()
            invariant
                k <= sets@.len(),
                v == set_views(sets@),
                all == set_asks(v),
                self@ == d,
                self.on() == t,
                resolve::asks(changes@) == keep + all.subrange(0, k as int),
            decreases sets@.len() - k,
        {
            let ghost before = resolve::asks(changes@);
            let r = Request { symbol: sets[k].0.clone(), text: sets[k].1.clone(), source: SOURCE.to_owned() };
            let ghost a = r@;
            assert(a == all[k as int]);
            changes.push(r);
            assert(resolve::asks(changes@) =~= before.push(a));
            assert(keep + all.subrange(0, k + 1) =~= before.push(a));
            k += 1;
        }
        assert(all.subrange(0, k as int) =~= all);
        let trial = copy_behind(&self.base, &changes);
        match resolve::resolve(self.table, trial.as_slice()) {
            Ok(res) => {
                proof {
                    resolve::every_symbol_is_decided(t, d.base + changed(d, v));
                    place_in_range(t, name@, 0);
                }
                let value = match self.table.index_of(name) {
                    Some(i) => res.entries[i].value.display(),
                    None => String::new(),
                };
                let mut line = name.to_owned();
                line.append(" = ");
                line.append(value.as_str());
                self.res = res;
                self.changes = changes;
                self.dirty = true;
                self.status = one_line(line);
            },
            Err(errs) => {
                let m = first_error(&errs);
                self.status = line_strings(m.as_str());
            },
        }
    }

    /// Request `name=text`. Picking a choice member also sets `n` on the member that
    /// was requested before, so the new pick is not two voices in one choice.
    pub fn set(&mut self, name: &str, text: &str)
        requires
            sound(old(self).on(), old(self)@),
            kcfg::sym_from(old(self).on().symbols, name@, 0) is Some,
        ensures
            final(self)@ == set_to(old(self).on(), old(self)@, name@, text@),
            final(self).on() == old(self).on(),
            sound(final(self).on(), final(self)@),
    {
        let ghost t = self.on();
        let ghost d = self@;
        let ghost i = resolve::place_of(t, name@);
        proof {
            place_in_range(t, name@, 0);
            assert(kcfg::sym_sound(t, t.symbols[i]));
        }
        let mut sets: Vec<(String, String)> = Vec::new();
        sets.push((name.to_owned(), text.to_owned()));
        let ghost lead = seq![(name@, text@)];
        assert(set_views(sets@) =~= lead);
        let owner = match self.table.get(name) {
            Some(sym) => match &sym.choice {
                Some(c) => if text::same(text, "y") {
                    Some(c)
                } else {
                    None
                },
                None => None,
            },
            None => None,
        };
        match owner {
            Some(c) => {
                match self.table.choice_index(c.as_str()) {
                    Some(p) => {
                        let asked = self.requests();
                        let choice = &self.table.choices[p];
                        assert(t.choices[p as int] == choice@);
                        let ghost members = choice@.members;
                        let wanted = name.to_owned();
                        let mut k: usize = 0;
                        assert(lead + seq![] =~= lead);
                        while k < choice.members.len()
                            invariant
                                k <= choice.members@.len(),
                                members == choice@.members,
                                wanted@ == name@,
                                self@ == d,
                                self.on() == t,
                                resolve::asks(asked@) == requested(d),
                                set_views(sets@) == lead + others_off(requested(d), members, name@, k as nat),
                            decreases choice.members@.len() - k,
                        {
                            let m = &choice.members[k];
                            assert(members[k as int] == m@);
                            let ghost before = set_views(sets@);
                            let ghost off = others_off(requested(d), members, name@, k as nat);
                            let on = match last_asked(&asked, m) {
                                Some(x) => text::same(x.as_str(), "y"),
                                None => false,
                            };
                            if on && *m != wanted {
                                sets.push((m.clone(), "n".to_owned()));
                                assert(set_views(sets@) =~= before.push((m@, "n"@)));
                                assert(lead + off.push((m@, "n"@)) =~= before.push((m@, "n"@)));
                            }
                            k += 1;
                        }
                    },
                    None => {},
                }
            },
            None => {},
        }
        self.apply(name, &sets);
    }

    /// Enter or space on a symbol: toggle a bool, step a tristate, pick a choice member,
    /// or start editing a value.
    fn activate(&mut self, name: &str)
        requires
            sound(old(self).on(), old(self)@),
            kcfg::sym_from(old(self).on().symbols, name@, 0) is Some,
        ensures
            final(self)@ == activated(old(self).on(), old(self)@, name@),
            final(self).on() == old(self).on(),
            sound(final(self).on(), final(self)@),
    {
        let ghost t = self.on();
        let ghost d = self@;
        proof {
            place_in_range(t, name@, 0);
            resolve::every_symbol_is_decided(t, requested(d));
            activated_is_sound(t, d, name@);
        }
        let i: usize = match self.table.index_of(name) {
            Some(i) => i,
            None => return,
        };
        let sym = &self.table.symbols[i];
        assert(t.symbols[i as int] == sym@);
        let now = self.res.entries[i].value.as_tri();
        match sym.kind {
            Kind::Bool => {
                if sym.choice.is_some() || now == Tri::N {
                    self.set(name, "y");
                } else {
                    self.set(name, "n");
                }
            },
            Kind::Tristate => {
                match now {
                    Tri::N => {
                        if self.res.tri(MODULES) == Tri::Y {
                            self.set(name, "m");
                        } else {
                            self.set(name, "y");
                        }
                    },
                    Tri::M => self.set(name, "y"),
                    Tri::Y => self.set(name, "n"),
                }
            },
            _ => {
                match self.unsettable(name) {
                    Some(why) => {
                        self.status = one_line(why);
                    },
                    None => {
                        let buffer = self.res.entries[i].value.literal();
                        self.view = Screen::Edit { symbol: name.to_owned(), buffer };
                    },
                }
            },
        }
    }

    fn open_row(&mut self)
        requires
            sound(old(self).on(), old(self)@),
        ensures
            final(self)@ == opened(old(self).on(), old(self)@),
            final(self).on() == old(self).on(),
            sound(final(self).on(), final(self)@),
    {
        let ghost d = self@;
        proof {
            opened_is_sound(self.on(), d);
            let (node, cursor) = d.stack.last();
            rows_exist(self.on(), node, self.on().symbols.len());
            if current(self.on(), d) is Some {
                assert(line_exists(self.on(), all_rows(self.on(), node)[cursor]));
            }
        }
        match self.current() {
            Some(Item::Menu(m)) => {
                self.stack.push((Node::Menu(m), 0));
                assert(self@.stack =~= d.stack.push((Spot::Menu(m as int), 0)));
            },
            Some(Item::Choice(c)) => {
                let ghost name = c@;
                self.stack.push((Node::Choice(c), 0));
                assert(self@.stack =~= d.stack.push((Spot::Choice(name), 0)));
            },
            Some(Item::Symbol(s)) => self.activate(s.as_str()),
            None => {},
        }
    }

    fn move_to(&mut self, c: usize)
        requires
            old(self)@.stack.len() > 0,
        ensures
            final(self)@ == cursor_at(old(self)@, c as int),
            final(self).on() == old(self).on(),
    {
        let ghost d = self@;
        let n: usize = self.stack.len();
        assert(d.stack.last() == (self.stack@[n - 1].0@, self.stack@[n - 1].1 as int));
        self.stack[n - 1].1 = c;
        assert(self@.stack =~= cursor_at(d, c as int).stack);
    }

    fn leave(&mut self)
        requires
            old(self)@.stack.len() > 0,
        ensures
            final(self)@ == left(old(self)@),
            final(self).on() == old(self).on(),
    {
        let ghost d = self@;
        if self.stack.len() > 1 {
            self.stack.pop();
            assert(self@.stack =~= d.stack.drop_last());
        }
    }

    fn current_symbol(&self) -> (r: Option<String>)
        requires
            sound(self.on(), self@),
        ensures
            match current(self.on(), self@) {
                Some(Line::Symbol(s)) => kcfg::opt_text(r) == Some(s) && kcfg::sym_from(
                    self.on().symbols,
                    s,
                    0,
                ) is Some,
                _ => r is None,
            },
    {
        proof {
            let (node, cursor) = self@.stack.last();
            rows_exist(self.on(), node, self.on().symbols.len());
            if current(self.on(), self@) is Some {
                assert(line_exists(self.on(), all_rows(self.on(), node)[cursor]));
            }
        }
        match self.current() {
            Some(Item::Symbol(s)) => Some(s),
            _ => None,
        }
    }

    fn handle_list(&mut self, key: Key) -> (r: Action)
        requires
            sound(old(self).on(), old(self)@),
            old(self)@.view == Pane::List,
        ensures
            (final(self)@, r) == listed_key(old(self).on(), old(self)@, key),
            final(self).on() == old(self).on(),
            sound(final(self).on(), final(self)@),
    {
        let ghost t = self.on();
        let ghost d = self@;
        proof {
            sessions_stay_sound(t, d, key);
            assert(spot_sound(t, d.stack[d.stack.len() - 1]));
        }
        let n: usize = self.stack.len();
        assert(d.stack.last() == (self.stack@[n - 1].0@, self.stack@[n - 1].1 as int));
        let cursor: usize = self.stack[n - 1].1;
        match key {
            Key::Left | Key::Esc | Key::Backspace | Key::Char('h') => {
                self.leave();
                return Action::Continue;
            },
            Key::Right | Key::Enter | Key::Char('l') => {
                self.open_row();
                return Action::Continue;
            },
            Key::Up | Key::Char('k') => {
                let c: usize = if cursor > 0 {
                    cursor - 1
                } else {
                    0
                };
                self.move_to(c);
                return Action::Continue;
            },
            Key::Down | Key::Char('j') => {
                let len: usize = self.items(&self.stack[n - 1].0).len();
                let last: usize = if len > 0 {
                    len - 1
                } else {
                    0
                };
                let c: usize = if cursor < last {
                    cursor + 1
                } else {
                    last
                };
                assert(len == all_rows(t, d.stack.last().0).len());
                self.move_to(c);
                return Action::Continue;
            },
            Key::Char(c) => {
                if c == ' ' {
                    match self.current_symbol() {
                        Some(s) => self.activate(s.as_str()),
                        None => {},
                    }
                } else if c == 'y' || c == 'n' || c == 'm' {
                    match self.current_symbol() {
                        Some(s) => self.set(s.as_str(), text::one(c).as_str()),
                        None => {},
                    }
                } else if c == '?' {
                    match self.current_symbol() {
                        Some(s) => {
                            self.view = Screen::Help(s);
                        },
                        None => {},
                    }
                } else if c == 'w' {
                    match self.current_symbol() {
                        Some(s) => {
                            self.view = Screen::Why(s);
                        },
                        None => {},
                    }
                } else if c == 's' {
                    return Action::Save;
                } else if c == 'q' {
                    if self.dirty {
                        self.view = Screen::ConfirmQuit;
                    } else {
                        return Action::Quit;
                    }
                }
            },
        }
        Action::Continue
    }

    /// Take one key.
    pub fn handle(&mut self, key: Key) -> (r: Action)
        requires
            sound(old(self).on(), old(self)@),
        ensures
            (final(self)@, r) == handled(old(self).on(), old(self)@, key),
            final(self).on() == old(self).on(),
            sound(final(self).on(), final(self)@),
    {
        let ghost t = self.on();
        let ghost d = self@;
        proof {
            sessions_stay_sound(t, d, key);
        }
        let mut view = Screen::List;
        std::mem::swap(&mut view, &mut self.view);
        match view {
            Screen::Help(_) => Action::Continue,
            Screen::Why(_) => Action::Continue,
            Screen::ConfirmQuit => match key {
                Key::Char('s') => Action::SaveAndQuit,
                Key::Char('q') => Action::Quit,
                _ => {
                    self.status = one_line("not quitting".to_owned());
                    Action::Continue
                },
            },
            Screen::Edit { symbol, buffer } => {
                match key {
                    Key::Enter => {
                        let mut sets: Vec<(String, String)> = Vec::new();
                        sets.push((symbol.clone(), buffer));
                        assert(set_views(sets@) =~= seq![(symbol@, buffer@)]);
                        assert(requested(self@) == requested(d));
                        self.apply(symbol.as_str(), &sets);
                    },
                    Key::Esc => {
                        let mut m = symbol;
                        m.append(" unchanged");
                        self.status = one_line(m);
                    },
                    Key::Backspace => {
                        let mut c = text::chars(buffer.as_str());
                        if c.len() > 0 {
                            c.pop();
                            assert(c@ =~= buffer@.drop_last());
                        }
                        self.view = Screen::Edit { symbol, buffer: text::string(c.as_slice()) };
                    },
                    Key::Char(c) => {
                        let mut b = buffer;
                        b.push(c);
                        self.view = Screen::Edit { symbol, buffer: b };
                    },
                    _ => {
                        self.view = Screen::Edit { symbol, buffer };
                    },
                }
                Action::Continue
            },
            Screen::List => self.handle_list(key),
        }
    }

    /// Everything shown has been written away; `message` says where to.
    pub fn saved(&mut self, message: String)
        requires
            sound(old(self).on(), old(self)@),
        ensures
            final(self)@ == (Desk { dirty: false, status: seq![message@], ..old(self)@ }),
            final(self).on() == old(self).on(),
            sound(final(self).on(), final(self)@),
    {
        let ghost d = self@;
        self.dirty = false;
        self.status = one_line(message);
        assert(requested(self@) == requested(d));
    }
}

proof fn place_in_range(t: kcfg::Table, name: Seq<char>, i: int)
    requires
        kcfg::sym_from(t.symbols, name, i) is Some,
    ensures
        0 <= kcfg::sym_from(t.symbols, name, i)->0 < t.symbols.len(),
    decreases t.symbols.len() - i,
{
    if t.symbols[i].name != name {
        place_in_range(t, name, i + 1);
    }
}

// ---- saving ----

/// Whether some request behind `k` names the same symbol.
pub open spec fn overridden(asked: Seq<resolve::Ask>, k: int) -> bool {
    exists|j: int| k < j < asked.len() && (#[trigger] asked[j]).symbol == asked[k].symbol
}

/// Those of the first `k` requests that have the last word on their symbol.
pub open spec fn lasting(asked: Seq<resolve::Ask>, k: nat) -> Seq<resolve::Ask>
    decreases k,
{
    if k == 0 {
        seq![]
    } else {
        let before = lasting(asked, (k - 1) as nat);
        if overridden(asked, k - 1) {
            before
        } else {
            before.push(asked[k - 1])
        }
    }
}

/// One line of a preset.
pub open spec fn preset_line(t: kcfg::Table, a: resolve::Ask) -> Seq<char> {
    let i = kcfg::sym_from(t.symbols, a.symbol, 0);
    if i is Some && t.symbols[i->0].kind == Kind::Str {
        a.symbol + "=\""@ + a.text + "\"\n"@
    } else {
        a.symbol + "="@ + a.text + "\n"@
    }
}

/// The lines of the first `k` requests of a preset.
pub open spec fn preset_lines(t: kcfg::Table, asked: Seq<resolve::Ask>, k: nat) -> Seq<char>
    decreases k,
{
    if k == 0 {
        seq![]
    } else {
        preset_lines(t, asked, (k - 1) as nat) + preset_line(t, asked[k - 1])
    }
}

/// A preset: two lines of comment and then every request that has the last word.
pub open spec fn preset(t: kcfg::Table, asked: Seq<resolve::Ask>, started_from: Seq<char>) -> Seq<char> {
    let kept = lasting(asked, asked.len());
    "# Saved by kbuild menuconfig. Build with: kbuild build --preset ./menuconfig.preset\n# Started from "@
        + started_from + ".\n"@ + preset_lines(t, kept, kept.len())
}

proof fn wish_of_lasting(s: kcfg::Sym, asked: Seq<resolve::Ask>, k: nat)
    requires
        k <= asked.len(),
        forall|j: int| k <= j < asked.len() ==> (#[trigger] asked[j]).symbol != s.name,
    ensures
        resolve::wish(s, lasting(asked, k), lasting(asked, k).len()) == resolve::wish(s, asked, k),
    decreases k,
{
    if k > 0 {
        let before = lasting(asked, (k - 1) as nat);
        let kept = lasting(asked, k);
        if asked[k - 1].symbol == s.name {
            assert(!overridden(asked, k - 1));
            assert(kept.last() == asked[k - 1]);
        } else {
            wish_of_lasting(s, asked, (k - 1) as nat);
            if kept.len() > before.len() {
                wish_of_prefix(s, kept, before, before.len());
            }
        }
    }
}

proof fn wish_of_prefix(s: kcfg::Sym, a: Seq<resolve::Ask>, b: Seq<resolve::Ask>, k: nat)
    requires
        k <= a.len(),
        k <= b.len(),
        forall|j: int| 0 <= j < k ==> a[j] == b[j],
    ensures
        resolve::wish(s, a, k) == resolve::wish(s, b, k),
    decreases k,
{
    if k > 0 {
        wish_of_prefix(s, a, b, (k - 1) as nat);
    }
}

proof fn lasting_is_drawn(asked: Seq<resolve::Ask>, k: nat)
    requires
        k <= asked.len(),
    ensures
        forall|i: int| 0 <= i < lasting(asked, k).len() ==> asked.contains(#[trigger] lasting(asked, k)[i]),
    decreases k,
{
    if k > 0 {
        lasting_is_drawn(asked, (k - 1) as nat);
        let before = lasting(asked, (k - 1) as nat);
        assert(asked.contains(asked[k - 1]));
        assert forall|i: int| 0 <= i < lasting(asked, k).len() implies asked.contains(
            #[trigger] lasting(asked, k)[i],
        ) by {
            if i < before.len() {
                assert(lasting(asked, k)[i] == before[i]);
            }
        }
    }
}

proof fn no_ask_fault(t: kcfg::Table, asked: Seq<resolve::Ask>, k: nat, i: int)
    requires
        resolve::ask_faults(t, asked, k).len() == 0,
        0 <= i < k,
    ensures
        resolve::ask_fault(t, asked[i]) is None,
    decreases k,
{
    if i < k - 1 {
        no_ask_fault(t, asked, (k - 1) as nat, i);
    }
}

proof fn no_ask_faults(t: kcfg::Table, asked: Seq<resolve::Ask>, k: nat)
    requires
        k <= asked.len(),
        forall|i: int| 0 <= i < asked.len() ==> resolve::ask_fault(t, #[trigger] asked[i]) is None,
    ensures
        resolve::ask_faults(t, asked, k).len() == 0,
    decreases k,
{
    if k > 0 {
        no_ask_faults(t, asked, (k - 1) as nat);
    }
}

/// The requests a preset keeps, one per symbol, resolve to the configuration that all the
/// requests resolve to.
pub proof fn presets_rebuild_the_configuration(t: kcfg::Table, asked: Seq<resolve::Ask>)
    requires
        resolve::resolved(t, asked) is Ok,
    ensures
        resolve::resolved(t, lasting(asked, asked.len())) == resolve::resolved(t, asked),
{
    let kept = lasting(asked, asked.len());
    lasting_is_drawn(asked, asked.len());
    assert forall|i: int| 0 <= i < kept.len() implies resolve::ask_fault(t, #[trigger] kept[i]) is None by {
        let j = choose|j: int| 0 <= j < asked.len() && asked[j] == kept[i];
        no_ask_fault(t, asked, asked.len(), j);
    }
    no_ask_faults(t, kept, kept.len());
    assert forall|i: int| 0 <= i < t.symbols.len() implies resolve::wish(
        #[trigger] t.symbols[i],
        kept,
        kept.len(),
    ) == resolve::wish(t.symbols[i], asked, asked.len()) by {
        wish_of_lasting(t.symbols[i], asked, asked.len());
    }
    assert(resolve::wishes(t, kept, kept.len()) =~= resolve::wishes(t, asked, asked.len()));
}

fn has_later(all: &Vec<Request>, k: usize) -> (r: bool)
    requires
        k < all@.len(),
    ensures
        r == overridden(resolve::asks(all@), k as int),
{
    let ghost asked = resolve::asks(all@);
    let ghost n = all.len();
    let mut j: usize = k + 1;
    while j < all.len()
        invariant
            k < j <= all@.len(),
            asked == resolve::asks(all@),
            forall|i: int| k < i < j ==> (#[trigger] asked[i]).symbol != asked[k as int].symbol,
        decreases all@.len() - j,
    {
        assert(asked[j as int] == all@[j as int]@ && asked[k as int] == all@[k as int]@);
        if all[j].symbol == all[k].symbol {
            return true;
        }
        j += 1;
    }
    false
}

// ---- drawing ----

/// What a symbol is called on the screen.
pub open spec fn label(t: kcfg::Table, name: Seq<char>) -> Seq<char> {
    match t.symbols[resolve::place_of(t, name)].prompt {
        Some(p) => p,
        None => name,
    }
}

/// What a choice is called on the screen.
pub open spec fn choice_label(g: kcfg::Group) -> Seq<char> {
    match g.prompt {
        Some(p) => p,
        None => g.name,
    }
}

/// The first member from `i` on that is on.
pub open spec fn first_on(o: resolve::Outcome, members: Seq<Seq<char>>, i: int) -> Option<Seq<char>>
    decreases members.len() - i,
{
    if i < 0 || i >= members.len() {
        None
    } else if resolve::tri_in(o.names, o.vals, members[i]) != Tri::N {
        Some(members[i])
    } else {
        first_on(o, members, i + 1)
    }
}

/// The mark in front of a symbol: its value, and whether the user has a say in it.
pub open spec fn mark(s: kcfg::Sym, v: kcfg::Value, c: resolve::Cause) -> Seq<char> {
    let forced = s.readonly || c is SelectedBy;
    let other = "("@ + kcfg::literal(v) + ")"@;
    if c is DependsUnmet {
        "   "@
    } else {
        match v {
            kcfg::Value::Tri(t) => match s.kind {
                Kind::Bool => if s.choice is Some {
                    if t == Tri::Y {
                        "(X)"@
                    } else {
                        "( )"@
                    }
                } else if forced {
                    if t == Tri::Y {
                        "-*-"@
                    } else {
                        "- -"@
                    }
                } else {
                    if t == Tri::Y {
                        "[*]"@
                    } else {
                        "[ ]"@
                    }
                },
                Kind::Tristate => match t {
                    Tri::N => "< >"@,
                    Tri::M => "<M>"@,
                    Tri::Y => if forced {
                        "-*-"@
                    } else {
                        "<*>"@
                    },
                },
                _ => other,
            },
            _ => other,
        }
    }
}

/// Whether a symbol was changed in the session.
pub open spec fn touched(changes: Seq<resolve::Ask>, name: Seq<char>) -> bool {
    exists|k: int| 0 <= k < changes.len() && (#[trigger] changes[k]).symbol == name
}

/// A symbol's row.
pub open spec fn symbol_row(t: kcfg::Table, d: Desk, name: Seq<char>) -> Seq<char> {
    let i = resolve::place_of(t, name);
    let s = t.symbols[i];
    let c = d.o.causes[i];
    let plain = (if touched(d.changes, name) {
        "+ "@
    } else {
        "  "@
    }) + mark(s, d.o.vals[i], c) + " "@ + label(t, name) + "  ["@ + name + "]"@;
    match s.depends {
        Some(e) => if c is DependsUnmet {
            plain + "  (needs "@ + kcfg::expr::shown(e) + ")"@
        } else {
            plain
        },
        None => plain,
    }
}

/// A row.
pub open spec fn row_text(t: kcfg::Table, d: Desk, l: Line) -> Seq<char> {
    match l {
        Line::Menu(m) => "      "@ + t.menus[m].title + "  --->"@,
        Line::Choice(c) => {
            let g = t.choices[kcfg::group_from(t.choices, c, 0)->0];
            "      "@ + choice_label(g) + " ("@ + (match first_on(d.o, g.members, 0) {
                Some(m) => label(t, m),
                None => "none available"@,
            }) + ")  --->"@
        },
        Line::Symbol(s) => symbol_row(t, d, s),
    }
}

/// The names of the containers that are open, from the `k`th on.
pub open spec fn crumbs(t: kcfg::Table, stack: Seq<(Spot, int)>, k: nat) -> Seq<Seq<char>>
    decreases k,
{
    if k <= 1 {
        seq!["KinTane configuration"@]
    } else {
        let before = crumbs(t, stack, (k - 1) as nat);
        match stack[k - 1].0 {
            Spot::Root => before,
            Spot::Menu(m) => before.push(t.menus[m].title),
            Spot::Choice(c) => before.push(choice_label(t.choices[kcfg::group_from(t.choices, c, 0)->0])),
        }
    }
}

/// Why the symbol at `i` has the value it has.
pub open spec fn why_text(t: kcfg::Table, d: Desk, i: int, name: Seq<char>) -> Seq<Seq<char>> {
    let s = t.symbols[i];
    seq!["value: "@ + kcfg::written(d.o.vals[i])] + resolve::explanation(d.o, name, t.symbols.len()) + (
    match s.depends {
        Some(e) => seq!["depends on: "@ + kcfg::expr::shown(e)],
        None => seq![],
    }) + (match resolve::active_span(s.ranges, d.o, 0) {
        Some(r) => seq!["range: "@ + text::decimal(r.lo) + "..="@ + text::decimal(r.hi)],
        None => seq![],
    })
}

/// What is said of a symbol: its help, or why it has the value it has.
pub open spec fn about(t: kcfg::Table, d: Desk, name: Seq<char>, help: bool) -> Seq<Seq<char>> {
    let i = resolve::place_of(t, name);
    let s = t.symbols[i];
    let head = label(t, name) + " ["@ + name + "]  ("@ + kcfg::kind_name(s.kind) + ", "@ + kcfg::place_text(
        s.origin,
    ) + ")"@;
    let middle = if help {
        text::lines(
            match s.help {
                Some(h) => h,
                None => "No help text."@,
            },
            0,
        )
    } else {
        why_text(t, d, i, name)
    };
    seq![head, ""@] + middle + seq![""@, "\x1b[2many key returns\x1b[0m"@]
}

/// At most `n` lines.
pub open spec fn at_most(s: Seq<Seq<char>>, n: int) -> Seq<Seq<char>> {
    if s.len() > n {
        s.subrange(0, n)
    } else {
        s
    }
}

/// At least `n` lines, filled up with empty ones.
pub open spec fn at_least(s: Seq<Seq<char>>, n: int) -> Seq<Seq<char>>
    decreases n - s.len(),
{
    if s.len() < n {
        at_least(s.push(""@), n)
    } else {
        s
    }
}

/// Row `k`, reversed out if the cursor is on it.
pub open spec fn drawn_row(t: kcfg::Table, d: Desk, k: int) -> Seq<char> {
    let (node, cursor) = d.stack.last();
    let row = row_text(t, d, all_rows(t, node)[k]);
    if k == cursor {
        "\x1b[7m"@ + row + "\x1b[0m"@
    } else {
        row
    }
}

/// The first row that is drawn when `body` rows fit, so that the cursor's is among them.
pub open spec fn first_drawn(cursor: int, body: int) -> int {
    let room = if body > 0 {
        body - 1
    } else {
        0
    };
    if cursor > room {
        cursor - room
    } else {
        0
    }
}

/// The rows from `k` up to `end`.
pub open spec fn drawn_rows(t: kcfg::Table, d: Desk, k: int, end: int) -> Seq<Seq<char>>
    decreases end - k,
{
    if k >= end {
        seq![]
    } else {
        seq![drawn_row(t, d, k)] + drawn_rows(t, d, k + 1, end)
    }
}

/// What stands between the head and the foot of the screen.
pub open spec fn middle(t: kcfg::Table, d: Desk, body: int) -> Seq<Seq<char>> {
    match d.view {
        Pane::Help(s) => at_most(about(t, d, s, true), body),
        Pane::Why(s) => at_most(about(t, d, s, false), body),
        _ => {
            let (node, cursor) = d.stack.last();
            let first = first_drawn(cursor, body);
            let n = all_rows(t, node).len();
            drawn_rows(
                t,
                d,
                first,
                if first + body < n {
                    first + body
                } else {
                    n as int
                },
            )
        },
    }
}

/// What stands at the foot of the screen.
pub open spec fn footer(d: Desk) -> Seq<Seq<char>> {
    match d.view {
        Pane::Edit(symbol, buffer) => seq![symbol + " = "@ + buffer + "_   (enter to apply, esc to cancel)"@],
        Pane::ConfirmQuit => seq![
            "unsaved changes: s saves and quits, q quits without saving, any other key stays"@,
        ],
        _ => d.status,
    }
}

/// The lines of the screen before they are clipped. What the head, the middle and the foot leave
/// of the height is empty.
pub open spec fn screen_lines(t: kcfg::Table, d: Desk, height: int) -> Seq<Seq<char>> {
    let head = seq![
        "\x1b[1m"@ + text::joined(crumbs(t, d.stack, d.stack.len()), " > "@) + "\x1b[0m"@,
        "\x1b[2marrows/hjkl move  enter open or change  space toggle  y/n/m set  ? help  w why  s save  q quit\x1b[0m"@,
        ""@,
    ];
    let foot = at_most(footer(d), 4);
    at_least(head + middle(t, d, height - 8), height - foot.len()) + foot
}

/// Where the escape sequence ends whose bytes are read from `i` on.
pub open spec fn escape_end(s: Seq<char>, i: int) -> int
    decreases s.len() - i,
{
    if i < 0 || i >= s.len() {
        s.len() as int
    } else if 'a' <= s[i] <= 'z' || 'A' <= s[i] <= 'Z' {
        i + 1
    } else {
        escape_end(s, i + 1)
    }
}

/// An escape sequence ends behind where it begins, and within the text.
pub proof fn escape_end_bounds(s: Seq<char>, i: int)
    requires
        0 <= i <= s.len(),
    ensures
        i <= escape_end(s, i) <= s.len(),
        i < s.len() ==> i < escape_end(s, i),
    decreases s.len() - i,
{
    if i < s.len() {
        escape_end_bounds(s, i + 1);
    }
}

/// `s` from `i` on, clipped to `left` visible characters; escape sequences take no room.
pub open spec fn clipped(s: Seq<char>, i: int, left: nat) -> Seq<char>
    decreases s.len() - i,
{
    if i < 0 || i >= s.len() {
        seq![]
    } else if s[i] == '\x1b' {
        proof {
            escape_end_bounds(s, i + 1);
        }
        let j = escape_end(s, i + 1);
        s.subrange(i, j) + clipped(s, j, left)
    } else if left == 0 {
        "\x1b[0m"@
    } else {
        seq![s[i]] + clipped(s, i + 1, (left - 1) as nat)
    }
}

/// Each line clipped.
pub open spec fn all_clipped(ls: Seq<Seq<char>>, width: nat) -> Seq<Seq<char>> {
    Seq::new(ls.len(), |i: int| clipped(ls[i], 0, width))
}

/// The screen, `height` lines of at most `width` characters each.
pub open spec fn screen(t: kcfg::Table, d: Desk, width: int, height: int) -> Seq<char> {
    let h = if height < 8 {
        8
    } else {
        height
    };
    let w = if width < 20 {
        20
    } else {
        width
    };
    text::joined(all_clipped(screen_lines(t, d, h), w as nat), "\r\n"@)
}

/// How many characters from `i` on are visible: those outside escape sequences.
pub open spec fn visible(s: Seq<char>, i: int) -> nat
    decreases s.len() - i,
{
    if i < 0 || i >= s.len() {
        0
    } else if s[i] == '\x1b' {
        proof {
            escape_end_bounds(s, i + 1);
        }
        visible(s, escape_end(s, i + 1))
    } else {
        1 + visible(s, i + 1)
    }
}

proof fn escape_end_shifts(a: Seq<char>, b: Seq<char>, k: int)
    requires
        0 <= k <= b.len(),
    ensures
        escape_end(a + b, a.len() + k) == a.len() + escape_end(b, k),
    decreases b.len() - k,
{
    if k < b.len() {
        assert((a + b)[a.len() + k] == b[k]);
        escape_end_shifts(a, b, k + 1);
    }
}

proof fn visible_shifts(a: Seq<char>, b: Seq<char>, k: int)
    requires
        0 <= k <= b.len(),
    ensures
        visible(a + b, a.len() + k) == visible(b, k),
    decreases b.len() - k,
{
    if k < b.len() {
        assert((a + b)[a.len() + k] == b[k]);
        if b[k] == '\x1b' {
            escape_end_bounds(b, k + 1);
            escape_end_shifts(a, b, k + 1);
            visible_shifts(a, b, escape_end(b, k + 1));
        } else {
            visible_shifts(a, b, k + 1);
        }
    }
}

/// Whether the escape sequence whose bytes are read from `p` on ends in a letter.
spec fn is_closed(s: Seq<char>, p: int) -> bool {
    let j = escape_end(s, p);
    p < j && ('a' <= s[j - 1] <= 'z' || 'A' <= s[j - 1] <= 'Z')
}

proof fn open_escapes_go_on(s: Seq<char>, p: int)
    requires
        0 <= p <= s.len(),
        !is_closed(s, p),
    ensures
        escape_end(s, p) == s.len(),
    decreases s.len() - p,
{
    if p < s.len() && !('a' <= s[p] <= 'z' || 'A' <= s[p] <= 'Z') {
        open_escapes_go_on(s, p + 1);
    }
}

/// An escape sequence that was copied ends where its copy does.
proof fn escapes_copy(s: Seq<char>, i: int, p: int, rest: Seq<char>)
    requires
        0 <= i < p <= s.len(),
        rest.len() == 0 || is_closed(s, p),
    ensures
        escape_end(s.subrange(i, escape_end(s, p)) + rest, p - i) == escape_end(s, p) - i,
    decreases s.len() - p,
{
    let j = escape_end(s, p);
    let out = s.subrange(i, j) + rest;
    escape_end_bounds(s, p);
    if p < s.len() {
        assert(out[p - i] == s[p]);
        if !('a' <= s[p] <= 'z' || 'A' <= s[p] <= 'Z') {
            escapes_copy(s, i, p + 1, rest);
        }
    } else {
        assert(out.len() == p - i);
    }
}

proof fn clipping_keeps_within(s: Seq<char>, i: int, left: nat)
    requires
        0 <= i <= s.len(),
    ensures
        visible(clipped(s, i, left), 0) <= left,
        visible(s, i) <= left ==> clipped(s, i, left) == s.subrange(i, s.len() as int),
    decreases s.len() - i,
{
    let out = clipped(s, i, left);
    if i == s.len() {
        assert(out =~= s.subrange(i, s.len() as int));
    } else if s[i] == '\x1b' {
        escape_end_bounds(s, i + 1);
        let j = escape_end(s, i + 1);
        let rest = clipped(s, j, left);
        clipping_keeps_within(s, j, left);
        if !is_closed(s, i + 1) {
            open_escapes_go_on(s, i + 1);
        }
        escapes_copy(s, i, i + 1, rest);
        let esc = s.subrange(i, j);
        assert(out[0] == s[i]);
        assert(out == esc + rest);
        visible_shifts(esc, rest, 0);
        assert(visible(out, 0) == visible(out, j - i));
        if visible(s, i) <= left {
            assert(esc + s.subrange(j, s.len() as int) =~= s.subrange(i, s.len() as int));
        }
    } else if left == 0 {
        reveal_strlit("\x1b[0m");
        reveal_with_fuel(escape_end, 4);
        assert(escape_end(out, 1) == 4);
        assert(visible(out, 4) == 0);
    } else {
        let rest = clipped(s, i + 1, (left - 1) as nat);
        clipping_keeps_within(s, i + 1, (left - 1) as nat);
        assert(out[0] == s[i]);
        visible_shifts(seq![s[i]], rest, 0);
        if visible(s, i) <= left {
            assert(seq![s[i]] + s.subrange(i + 1, s.len() as int) =~= s.subrange(i, s.len() as int));
        }
    }
}

/// A clipped line shows no more characters than there is room for, whatever escape sequences it
/// holds, and one that fits is left as it is.
pub proof fn clipped_lines_fit(s: Seq<char>, width: nat)
    ensures
        visible(clipped(s, 0, width), 0) <= width,
        visible(s, 0) <= width ==> clipped(s, 0, width) == s,
{
    clipping_keeps_within(s, 0, width);
    assert(s.subrange(0, s.len() as int) =~= s);
}

proof fn filling_fills(s: Seq<Seq<char>>, n: int)
    requires
        s.len() <= n,
    ensures
        at_least(s, n).len() == n,
    decreases n - s.len(),
{
    if s.len() < n {
        filling_fills(s.push(""@), n);
    }
}

proof fn rows_are_as_many(t: kcfg::Table, d: Desk, k: int, end: int)
    requires
        k <= end,
    ensures
        drawn_rows(t, d, k, end).len() == end - k,
    decreases end - k,
{
    if k < end {
        rows_are_as_many(t, d, k + 1, end);
    }
}

/// A screen is as high as its terminal, and no line of it is wider.
pub proof fn screens_fit(t: kcfg::Table, d: Desk, width: nat, height: int, i: int)
    requires
        height >= 8,
        0 <= i < height,
    ensures
        all_clipped(screen_lines(t, d, height), width).len() == height,
        visible(all_clipped(screen_lines(t, d, height), width)[i], 0) <= width,
{
    let foot = at_most(footer(d), 4);
    let mid = middle(t, d, height - 8);
    let (node, cursor) = d.stack.last();
    let first = first_drawn(cursor, height - 8);
    let n = all_rows(t, node).len();
    let end = if first + (height - 8) < n {
        first + (height - 8)
    } else {
        n as int
    };
    if first <= end {
        rows_are_as_many(t, d, first, end);
    }
    assert(mid.len() <= height - 8);
    let head = seq![
        "\x1b[1m"@ + text::joined(crumbs(t, d.stack, d.stack.len()), " > "@) + "\x1b[0m"@,
        "\x1b[2marrows/hjkl move  enter open or change  space toggle  y/n/m set  ? help  w why  s save  q quit\x1b[0m"@,
        ""@,
    ];
    filling_fills(head + mid, height - foot.len());
    clipped_lines_fit(screen_lines(t, d, height)[i], width);
}

/// Clip to `width` visible characters, not counting ANSI escapes.
pub fn clip(line: &str, width: usize) -> (r: String)
    ensures
        r@ == clipped(line@, 0, width as nat),
{
    let c = text::chars(line);
    let ghost s = line@;
    let mut out: Vec<char> = Vec::new();
    let mut left: usize = width;
    let mut i: usize = 0;
    assert(out@ + clipped(s, 0, width as nat) =~= clipped(s, 0, width as nat));
    while i < c.len()
        invariant_except_break
            c@ == s,
            i <= s.len(),
            out@ + clipped(s, i as int, left as nat) == clipped(s, 0, width as nat),
        ensures
            out@ == clipped(s, 0, width as nat),
        decreases s.len() - i,
    {
        let ghost before = out@;
        if c[i] == '\x1b' {
            let ghost start = i as int;
            out.push(c[i]);
            i += 1;
            let mut done = false;
            while i < c.len() && !done
                invariant
                    c@ == s,
                    0 <= start < i <= s.len(),
                    out@ == before + s.subrange(start, i as int),
                    if done {
                        i == escape_end(s, start + 1)
                    } else {
                        escape_end(s, i as int) == escape_end(s, start + 1)
                    },
                decreases s.len() - i,
            {
                out.push(c[i]);
                assert(out@ =~= before + s.subrange(start, i + 1));
                if ('a' <= c[i] && c[i] <= 'z') || ('A' <= c[i] && c[i] <= 'Z') {
                    done = true;
                }
                i += 1;
            }
            assert(i == escape_end(s, start + 1));
            assert(before + (s.subrange(start, i as int) + clipped(s, i as int, left as nat)) =~= out@ + clipped(
                s,
                i as int,
                left as nat,
            ));
        } else if left == 0 {
            out.push('\x1b');
            out.push('[');
            out.push('0');
            out.push('m');
            proof {
                reveal_strlit("\x1b[0m");
            }
            assert(out@ =~= before + "\x1b[0m"@);
            break;
        } else {
            out.push(c[i]);
            left -= 1;
            i += 1;
            assert(before + (seq![s[i - 1]] + clipped(s, i as int, left as nat)) =~= out@ + clipped(
                s,
                i as int,
                left as nat,
            ));
        }
        assert(out@ + seq![] =~= out@);
    }
    text::string(out.as_slice())
}

fn keep_first(v: Vec<String>, n: usize) -> (r: Vec<String>)
    ensures
        text::views(r@) == at_most(text::views(v@), n as int),
{
    let mut v = v;
    let ghost all = text::views(v@);
    if v.len() > n {
        v.truncate(n);
        assert(text::views(v@) =~= all.subrange(0, n as int));
    }
    v
}

fn push_line(v: &mut Vec<String>, s: String)
    ensures
        text::views(final(v)@) == text::views(old(v)@).push(s@),
{
    let ghost before = text::views(v@);
    v.push(s);
    assert(text::views(v@) =~= before.push(s@));
}

fn push_lines(v: &mut Vec<String>, more: Vec<String>)
    ensures
        text::views(final(v)@) == text::views(old(v)@) + text::views(more@),
{
    let ghost before = text::views(v@);
    let ghost added = text::views(more@);
    let mut more = more;
    v.append(&mut more);
    assert(text::views(v@) =~= before + added);
}

fn text3(a: &str, b: &str, c: &str) -> (r: String)
    ensures
        r@ == a@ + b@ + c@,
{
    let mut r = a.to_owned();
    r.append(b);
    r.append(c);
    r
}

fn choice_name(c: &kcfg::Choice) -> (r: String)
    ensures
        r@ == choice_label(c@),
{
    match &c.prompt {
        Some(p) => p.clone(),
        None => c.name.clone(),
    }
}

fn draw_mark(sym: &kcfg::Symbol, v: &Val, reason: &Reason) -> (r: String)
    ensures
        r@ == mark(sym@, v@, reason@),
{
    let selected = match reason {
        Reason::DependsUnmet(_) => return "   ".to_owned(),
        Reason::SelectedBy(_) => true,
        _ => false,
    };
    let forced = sym.readonly || selected;
    match v {
        Val::Tri(t) => {
            let t = *t;
            match sym.kind {
                Kind::Bool => {
                    let on = t == Tri::Y;
                    if sym.choice.is_some() {
                        if on {
                            "(X)".to_owned()
                        } else {
                            "( )".to_owned()
                        }
                    } else if forced {
                        if on {
                            "-*-".to_owned()
                        } else {
                            "- -".to_owned()
                        }
                    } else if on {
                        "[*]".to_owned()
                    } else {
                        "[ ]".to_owned()
                    }
                },
                Kind::Tristate => match t {
                    Tri::N => "< >".to_owned(),
                    Tri::M => "<M>".to_owned(),
                    Tri::Y => if forced {
                        "-*-".to_owned()
                    } else {
                        "<*>".to_owned()
                    },
                },
                _ => text3("(", v.literal().as_str(), ")"),
            }
        },
        _ => text3("(", v.literal().as_str(), ")"),
    }
}

impl<'t> Session<'t> {
    /// The preset a build uses: every request, one per symbol, the last word winning.
    pub fn preset_text(&self, started_from: &str) -> (r: String)
        ensures
            r@ == preset(self.on(), requested(self@), started_from@),
    {
        let mut out = text3(
            "# Saved by kbuild menuconfig. Build with: kbuild build --preset ./menuconfig.preset\n# Started from ",
            started_from,
            ".\n",
        );
        let ghost head = out@;
        let all = self.requests();
        let ghost asked = resolve::asks(all@);
        let ghost t = self.on();
        let mut k: usize = 0;
        assert(head + preset_lines(t, lasting(asked, 0), 0) =~= head);
        while k < all.len()
            invariant
                k <= all@.len(),
                asked == resolve::asks(all@),
                t == self.on(),
                out@ == head + preset_lines(t, lasting(asked, k as nat), lasting(asked, k as nat).len()),
            decreases all@.len() - k,
        {
            let ghost before = lasting(asked, k as nat);
            assert(asked[k as int] == all@[k as int]@);
            if !has_later(&all, k) {
                let r = &all[k];
                let ghost kept = lasting(asked, (k + 1) as nat);
                let ghost so_far = out@;
                proof {
                    lines_of_prefix(t, kept, before, before.len());
                }
                out.append(r.symbol.as_str());
                let quoted = match self.table.get(r.symbol.as_str()) {
                    Some(s) => match s.kind {
                        Kind::Str => true,
                        _ => false,
                    },
                    None => false,
                };
                if quoted {
                    out.append("=\"");
                    out.append(r.text.as_str());
                    out.append("\"\n");
                } else {
                    out.append("=");
                    out.append(r.text.as_str());
                    out.append("\n");
                }
                assert(out@ =~= so_far + preset_line(t, r@));
                assert(head + (preset_lines(t, before, before.len()) + preset_line(t, r@)) =~= so_far
                    + preset_line(t, r@));
            }
            k += 1;
        }
        out
    }

    fn label(&self, name: &str) -> (r: String)
        requires
            kcfg::sym_from(self.on().symbols, name@, 0) is Some,
        ensures
            r@ == label(self.on(), name@),
    {
        match self.table.get(name) {
            Some(s) => match &s.prompt {
                Some(p) => p.clone(),
                None => name.to_owned(),
            },
            None => name.to_owned(),
        }
    }

    fn changed_here(&self, name: &str) -> (r: bool)
        ensures
            r == touched(self@.changes, name@),
    {
        let mut k: usize = 0;
        while k < self.changes.len()
            invariant
                k <= self.changes@.len(),
                forall|j: int| 0 <= j < k ==> (#[trigger] self@.changes[j]).symbol != name@,
            decreases self.changes@.len() - k,
        {
            assert(self@.changes[k as int] == self.changes@[k as int]@);
            if text::same(self.changes[k].symbol.as_str(), name) {
                return true;
            }
            k += 1;
        }
        false
    }

    fn symbol_row(&self, name: &str) -> (r: String)
        requires
            sound(self.on(), self@),
            kcfg::sym_from(self.on().symbols, name@, 0) is Some,
        ensures
            r@ == symbol_row(self.on(), self@, name@),
    {
        let ghost t = self.on();
        proof {
            place_in_range(t, name@, 0);
            resolve::every_symbol_is_decided(t, requested(self@));
        }
        let i: usize = match self.table.index_of(name) {
            Some(i) => i,
            None => return String::new(),
        };
        let sym = &self.table.symbols[i];
        assert(t.symbols[i as int] == sym@);
        let entry = &self.res.entries[i];
        let mut line = if self.changed_here(name) {
            "+ ".to_owned()
        } else {
            "  ".to_owned()
        };
        line.append(draw_mark(sym, &entry.value, &entry.reason).as_str());
        line.append(" ");
        line.append(self.label(name).as_str());
        line.append("  [");
        line.append(name);
        line.append("]");
        let unavailable = match &entry.reason {
            Reason::DependsUnmet(_) => true,
            _ => false,
        };
        if unavailable {
            match &sym.depends {
                Some(e) => {
                    line.append("  (needs ");
                    line.append(e.to_text().as_str());
                    line.append(")");
                },
                None => {},
            }
        }
        line
    }

    fn first_member_on(&self, members: &Vec<String>) -> (r: Option<String>)
        ensures
            kcfg::opt_text(r) == first_on(self@.o, text::views(members@), 0),
    {
        let mut i: usize = 0;
        while i < members.len()
            invariant
                i <= members@.len(),
                first_on(self@.o, text::views(members@), 0) == first_on(self@.o, text::views(members@), i as int),
            decreases members@.len() - i,
        {
            assert(text::views(members@)[i as int] == members@[i as int]@);
            if self.res.is_on(members[i].as_str()) {
                return Some(members[i].clone());
            }
            i += 1;
        }
        None
    }

    fn row(&self, item: &Item) -> (r: String)
        requires
            sound(self.on(), self@),
            line_exists(self.on(), item@),
        ensures
            r@ == row_text(self.on(), self@, item@),
    {
        let ghost t = self.on();
        match item {
            Item::Menu(m) => {
                assert(t.menus[*m as int] == self.table.menus@[*m as int]@);
                text3("      ", self.table.menus[*m].title.as_str(), "  --->")
            },
            Item::Choice(c) => match self.table.choice_index(c.as_str()) {
                Some(p) => {
                    let choice = &self.table.choices[p];
                    assert(t.choices[p as int] == choice@);
                    let mut line = text3("      ", choice_name(choice).as_str(), " (");
                    match self.first_member_on(&choice.members) {
                        Some(m) => {
                            proof {
                                member_found(t, p as int, self@.o, 0);
                            }
                            line.append(self.label(m.as_str()).as_str());
                        },
                        None => {
                            line.append("none available");
                        },
                    }
                    line.append(")  --->");
                    line
                },
                None => String::new(),
            },
            Item::Symbol(name) => self.symbol_row(name.as_str()),
        }
    }

    fn breadcrumb(&self) -> (r: String)
        requires
            sound(self.on(), self@),
        ensures
            r@ == text::joined(crumbs(self.on(), self@.stack, self@.stack.len()), " > "@),
    {
        let ghost t = self.on();
        let ghost stack = self@.stack;
        let mut parts: Vec<String> = one_line("KinTane configuration".to_owned());
        let mut k: usize = 1;
        while k < self.stack.len()
            invariant
                1 <= k <= self.stack@.len(),
                t == self.on(),
                stack == self@.stack,
                sound(t, self@),
                text::views(parts@) == crumbs(t, stack, k as nat),
            decreases self.stack@.len() - k,
        {
            assert(spot_sound(t, stack[k as int]));
            assert(stack[k as int].0 == self.stack@[k as int].0@);
            match &self.stack[k].0 {
                Node::Root => {},
                Node::Menu(m) => {
                    assert(t.menus[*m as int] == self.table.menus@[*m as int]@);
                    push_line(&mut parts, self.table.menus[*m].title.clone());
                },
                Node::Choice(c) => match self.table.choice_index(c.as_str()) {
                    Some(p) => {
                        assert(t.choices[p as int] == self.table.choices@[p as int]@);
                        push_line(&mut parts, choice_name(&self.table.choices[p]));
                    },
                    None => {},
                },
            }
            k += 1;
        }
        text::join(&parts, " > ")
    }

    fn why_lines(&self, i: usize, name: &str) -> (r: Vec<String>)
        requires
            i < self.table.symbols@.len(),
            i < self.res.entries@.len(),
        ensures
            text::views(r@) == why_text(self.on(), self@, i as int, name@),
    {
        let ghost t = self.on();
        let ghost o = self@.o;
        let sym = &self.table.symbols[i];
        assert(t.symbols[i as int] == sym@);
        let mut line = "value: ".to_owned();
        line.append(self.res.entries[i].value.display().as_str());
        let mut out = one_line(line);
        push_lines(&mut out, self.res.explain(self.table, name));
        let ghost lead = text::views(out@);
        match &sym.depends {
            Some(e) => {
                let mut line = "depends on: ".to_owned();
                line.append(e.to_text().as_str());
                push_line(&mut out, line);
                assert(text::views(out@) =~= lead + seq!["depends on: "@ + kcfg::expr::shown(e@)]);
            },
            None => {
                assert(lead + seq![] =~= lead);
            },
        }
        let ghost more = text::views(out@);
        match resolve::active_range(sym, &self.res) {
            Some(r) => {
                let mut line = text3("range: ", text::int_text(r.lo).as_str(), "..=");
                line.append(text::int_text(r.hi).as_str());
                push_line(&mut out, line);
                assert(text::views(out@) =~= more + seq![
                    "range: "@ + text::decimal(r@.lo) + "..="@ + text::decimal(r@.hi),
                ]);
            },
            None => {
                assert(more + seq![] =~= more);
            },
        }
        out
    }

    fn about(&self, name: &str, help: bool) -> (r: Vec<String>)
        requires
            sound(self.on(), self@),
            kcfg::sym_from(self.on().symbols, name@, 0) is Some,
        ensures
            text::views(r@) == about(self.on(), self@, name@, help),
    {
        let ghost t = self.on();
        proof {
            place_in_range(t, name@, 0);
            resolve::every_symbol_is_decided(t, requested(self@));
        }
        let i: usize = match self.table.index_of(name) {
            Some(i) => i,
            None => return Vec::new(),
        };
        let sym = &self.table.symbols[i];
        assert(t.symbols[i as int] == sym@);
        let mut head = text3(self.label(name).as_str(), " [", name);
        head.append("]  (");
        head.append(sym.kind.name());
        head.append(", ");
        head.append(sym.origin.to_text().as_str());
        head.append(")");
        let ghost first = head@;
        let mut out = one_line(head);
        push_line(&mut out, "".to_owned());
        assert(text::views(out@) =~= seq![first, ""@]);
        let lines = if help {
            match &sym.help {
                Some(h) => line_strings(h.as_str()),
                None => line_strings("No help text."),
            }
        } else {
            self.why_lines(i, name)
        };
        push_lines(&mut out, lines);
        let ghost lead = text::views(out@);
        push_line(&mut out, "".to_owned());
        push_line(&mut out, "\x1b[2many key returns\x1b[0m".to_owned());
        assert(text::views(out@) =~= lead + seq![""@, "\x1b[2many key returns\x1b[0m"@]);
        out
    }

    fn draw_rows(&self, body: usize) -> (r: Vec<String>)
        requires
            sound(self.on(), self@),
        ensures
            text::views(r@) == ({
                let (node, cursor) = self@.stack.last();
                let first = first_drawn(cursor, body as int);
                let n = all_rows(self.on(), node).len();
                drawn_rows(
                    self.on(),
                    self@,
                    first,
                    if first + body < n {
                        first + body
                    } else {
                        n as int
                    },
                )
            }),
    {
        let ghost t = self.on();
        let ghost d = self@;
        let depth: usize = self.stack.len();
        assert(d.stack.last() == (self.stack@[depth - 1].0@, self.stack@[depth - 1].1 as int));
        let cursor: usize = self.stack[depth - 1].1;
        let items = self.items(&self.stack[depth - 1].0);
        let ghost all = all_rows(t, d.stack.last().0);
        proof {
            rows_exist(t, d.stack.last().0, t.symbols.len());
        }
        let room: usize = if body > 0 {
            body - 1
        } else {
            0
        };
        let first: usize = if cursor > room {
            cursor - room
        } else {
            0
        };
        let n: usize = items.len();
        assert(n == all.len());
        let end: usize = if first < n && body < n - first {
            first + body
        } else {
            n
        };
        let mut out: Vec<String> = Vec::new();
        let mut k: usize = first;
        let ghost want = drawn_rows(t, d, first as int, end as int);
        assert(text::views(out@) + want =~= want);
        while k < end
            invariant
                end <= n == items@.len(),
                t == self.on(),
                d == self@,
                sound(t, d),
                all == lines_of(items@),
                all == all_rows(t, d.stack.last().0),
                forall|i: int| 0 <= i < all.len() ==> line_exists(t, #[trigger] all[i]),
                cursor == d.stack.last().1,
                text::views(out@) + drawn_rows(t, d, k as int, end as int) == want,
            decreases end - k,
        {
            let ghost before = text::views(out@);
            assert(all[k as int] == items@[k as int]@);
            let row = self.row(&items[k]);
            let line = if k == cursor {
                text3("\x1b[7m", row.as_str(), "\x1b[0m")
            } else {
                row
            };
            let ghost l = line@;
            push_line(&mut out, line);
            assert(before + (seq![l] + drawn_rows(t, d, k + 1, end as int)) =~= before.push(l) + drawn_rows(
                t,
                d,
                k + 1,
                end as int,
            ));
            k += 1;
        }
        assert(drawn_rows(t, d, k as int, end as int) =~= seq![]);
        assert(text::views(out@) =~= want);
        assert(first == first_drawn(cursor as int, body as int));
        assert(drawn_rows(
            t,
            d,
            first as int,
            if first + body < n {
                first + body
            } else {
                n as int
            },
        ) =~= want);
        out
    }

    /// The screen, `height` lines of at most `width` characters each. A terminal of fewer than 8
    /// lines or 20 characters is drawn as if it had that many.
    pub fn render(&self, width: usize, height: usize) -> (r: String)
        requires
            sound(self.on(), self@),
        ensures
            r@ == screen(self.on(), self@, width as int, height as int),
    {
        let ghost t = self.on();
        let ghost d = self@;
        let height: usize = if height < 8 {
            8
        } else {
            height
        };
        let width: usize = if width < 20 {
            20
        } else {
            width
        };
        let crumb = self.breadcrumb();
        let mut lines: Vec<String> = one_line(text3("\x1b[1m", crumb.as_str(), "\x1b[0m"));
        let ghost top = "\x1b[1m"@ + crumb@ + "\x1b[0m"@;
        push_line(
            &mut lines,
            "\x1b[2marrows/hjkl move  enter open or change  space toggle  y/n/m set  ? help  w why  s save  q quit\x1b[0m".to_owned(),
        );
        push_line(&mut lines, "".to_owned());
        let ghost head = seq![
            top,
            "\x1b[2marrows/hjkl move  enter open or change  space toggle  y/n/m set  ? help  w why  s save  q quit\x1b[0m"@,
            ""@,
        ];
        assert(text::views(lines@) =~= head);
        let body: usize = height - 8;
        let mid = match &self.view {
            Screen::Help(s) => keep_first(self.about(s.as_str(), true), body),
            Screen::Why(s) => keep_first(self.about(s.as_str(), false), body),
            _ => self.draw_rows(body),
        };
        assert(text::views(mid@) == middle(t, d, body as int));
        push_lines(&mut lines, mid);
        let ghost upper = text::views(lines@);
        let foot = match &self.view {
            Screen::Edit { symbol, buffer } => {
                let mut line = text3(symbol.as_str(), " = ", buffer.as_str());
                line.append("_   (enter to apply, esc to cancel)");
                one_line(line)
            },
            Screen::ConfirmQuit => one_line(
                "unsaved changes: s saves and quits, q quits without saving, any other key stays".to_owned(),
            ),
            _ => {
                let mut copy: Vec<String> = Vec::new();
                let mut k: usize = 0;
                while k < self.status.len()
                    invariant
                        k <= self.status@.len(),
                        copy@.len() == k,
                        forall|j: int| 0 <= j < k ==> (#[trigger] copy@[j])@ == self.status@[j]@,
                    decreases self.status@.len() - k,
                {
                    copy.push(self.status[k].clone());
                    k += 1;
                }
                assert(text::views(copy@) =~= text::views(self.status@));
                copy
            },
        };
        assert(text::views(foot@) == footer(d));
        let foot = keep_first(foot, 4);
        assert(text::views(foot@).len() == foot@.len());
        let filled: usize = height - foot.len();
        while lines.len() < filled
            invariant
                at_least(text::views(lines@), filled as int) == at_least(upper, filled as int),
            decreases filled - lines@.len(),
        {
            assert(text::views(lines@).len() == lines@.len());
            push_line(&mut lines, "".to_owned());
            assert(text::views(lines@).len() == lines@.len());
        }
        assert(text::views(lines@).len() == lines@.len());
        push_lines(&mut lines, foot);
        assert(text::views(lines@) == screen_lines(t, d, height as int));
        let mut shown: Vec<String> = Vec::new();
        let ghost all = text::views(lines@);
        let mut k: usize = 0;
        while k < lines.len()
            invariant
                k <= lines@.len(),
                all == text::views(lines@),
                shown@.len() == k,
                forall|j: int| 0 <= j < k ==> (#[trigger] shown@[j])@ == clipped(all[j], 0, width as nat),
            decreases lines@.len() - k,
        {
            assert(all[k as int] == lines@[k as int]@);
            shown.push(clip(lines[k].as_str(), width));
            k += 1;
        }
        assert(text::views(shown@) =~= all_clipped(all, width as nat));
        text::join(&shown, "\r\n")
    }
}

proof fn lines_of_prefix(t: kcfg::Table, a: Seq<resolve::Ask>, b: Seq<resolve::Ask>, k: nat)
    requires
        k <= a.len(),
        k <= b.len(),
        forall|j: int| 0 <= j < k ==> a[j] == b[j],
    ensures
        preset_lines(t, a, k) == preset_lines(t, b, k),
    decreases k,
{
    if k > 0 {
        lines_of_prefix(t, a, b, (k - 1) as nat);
    }
}

proof fn member_found(t: kcfg::Table, p: int, o: resolve::Outcome, i: int)
    requires
        kcfg::well_formed(t),
        0 <= p < t.choices.len(),
        0 <= i,
        first_on(o, t.choices[p].members, i) is Some,
    ensures
        kcfg::sym_from(t.symbols, first_on(o, t.choices[p].members, i)->0, 0) is Some,
    decreases t.choices[p].members.len() - i,
{
    let m = t.choices[p].members;
    if resolve::tri_in(o.names, o.vals, m[i]) == Tri::N {
        member_found(t, p, o, i + 1);
    } else {
        assert(kcfg::belongs(t, m[i], t.choices[p].name));
    }
}

// ---- keys ----

/// Whether `b` ends an escape sequence.
pub open spec fn final_byte(b: u8) -> bool {
    0x41 <= b <= 0x5a || 0x61 <= b <= 0x7a || b == 0x7e
}

/// Where the escape sequence ends whose bytes are read from `i` on.
pub open spec fn sequence_end(b: Seq<u8>, i: int) -> int
    decreases b.len() - i,
{
    if i < 0 || i >= b.len() {
        b.len() as int
    } else if final_byte(b[i]) {
        i + 1
    } else {
        sequence_end(b, i + 1)
    }
}

/// A key sequence ends behind where it begins, and within the bytes.
pub proof fn sequence_end_bounds(b: Seq<u8>, i: int)
    requires
        0 <= i <= b.len(),
    ensures
        i <= sequence_end(b, i) <= b.len(),
    decreases b.len() - i,
{
    if i < b.len() {
        sequence_end_bounds(b, i + 1);
    }
}

/// The key that the bytes from `i` on start with, if they start with one, and where the
/// next begins.
pub open spec fn key_at(b: Seq<u8>, i: int) -> (Option<Key>, int) {
    let n = b.len();
    let arrow = i + 2 < n && b[i] == 0x1b && (b[i + 1] == 0x5b || b[i + 1] == 0x4f);
    if arrow && b[i + 2] == 0x41 {
        (Some(Key::Up), i + 3)
    } else if arrow && b[i + 2] == 0x42 {
        (Some(Key::Down), i + 3)
    } else if arrow && b[i + 2] == 0x43 {
        (Some(Key::Right), i + 3)
    } else if arrow && b[i + 2] == 0x44 {
        (Some(Key::Left), i + 3)
    } else if i + 1 < n && b[i] == 0x1b && b[i + 1] == 0x5b {
        (None, sequence_end(b, i + 2))
    } else if b[i] == 0x1b {
        (Some(Key::Esc), i + 1)
    } else if b[i] == 0x0d || b[i] == 0x0a {
        (Some(Key::Enter), i + 1)
    } else if b[i] == 0x7f || b[i] == 0x08 {
        (Some(Key::Backspace), i + 1)
    } else if b[i] == 0x03 {
        (Some(Key::Char('q')), i + 1)
    } else {
        match text::char_at(b, i) {
            Some((c, used)) => (Some(Key::Char(c)), i + used),
            None => (
                Some(Key::Char('\u{fffd}')),
                if i + 3 <= n {
                    i + 3
                } else {
                    n as int
                },
            ),
        }
    }
}

/// Every key takes at least a byte.
pub proof fn keys_advance(b: Seq<u8>, i: int)
    requires
        0 <= i < b.len(),
    ensures
        i < key_at(b, i).1 <= b.len(),
{
    if i + 2 <= b.len() {
        sequence_end_bounds(b, i + 2);
    }
}

/// The keys that the bytes from `i` on are.
pub open spec fn keys_in(b: Seq<u8>, i: int) -> Seq<Key>
    decreases b.len() - i,
{
    if i < 0 || i >= b.len() {
        seq![]
    } else {
        proof {
            keys_advance(b, i);
        }
        let (key, next) = key_at(b, i);
        match key {
            Some(k) => seq![k] + keys_in(b, next),
            None => keys_in(b, next),
        }
    }
}

fn take_key(b: &[u8], i: usize) -> (r: (Option<Key>, usize))
    requires
        i < b@.len(),
    ensures
        (r.0, r.1 as int) == key_at(b@, i as int),
{
    proof {
        keys_advance(b@, i as int);
    }
    let left: usize = b.len() - i;
    if b[i] == 0x1b && left > 2 && (b[i + 1] == 0x5b || b[i + 1] == 0x4f) {
        if b[i + 2] == 0x41 {
            return (Some(Key::Up), i + 3);
        }
        if b[i + 2] == 0x42 {
            return (Some(Key::Down), i + 3);
        }
        if b[i + 2] == 0x43 {
            return (Some(Key::Right), i + 3);
        }
        if b[i + 2] == 0x44 {
            return (Some(Key::Left), i + 3);
        }
    }
    if b[i] == 0x1b && left > 1 && b[i + 1] == 0x5b {
        // An escape sequence that is not used: skip to its final byte.
        let mut j: usize = i + 2;
        while j < b.len()
            invariant
                i + 2 <= j <= b@.len(),
                sequence_end(b@, i + 2) == sequence_end(b@, j as int),
                key_at(b@, i as int) == (None::<Key>, sequence_end(b@, i + 2)),
            decreases b@.len() - j,
        {
            if (0x41 <= b[j] && b[j] <= 0x5a) || (0x61 <= b[j] && b[j] <= 0x7a) || b[j] == 0x7e {
                return (None, j + 1);
            }
            j += 1;
        }
        return (None, j);
    }
    if b[i] == 0x1b {
        (Some(Key::Esc), i + 1)
    } else if b[i] == 0x0d || b[i] == 0x0a {
        (Some(Key::Enter), i + 1)
    } else if b[i] == 0x7f || b[i] == 0x08 {
        (Some(Key::Backspace), i + 1)
    } else if b[i] == 0x03 {
        // Ctrl-C in raw mode is just a byte.
        (Some(Key::Char('q')), i + 1)
    } else {
        match text::decode_at(b, i) {
            Some((c, used)) => (Some(Key::Char(c)), i + used),
            None => if left >= 3 {
                (Some(Key::Char('\u{fffd}')), i + 3)
            } else {
                (Some(Key::Char('\u{fffd}')), b.len())
            },
        }
    }
}

/// Keys in one read from a raw terminal.
pub fn parse_keys(bytes: &[u8]) -> (r: Vec<Key>)
    ensures
        r@ == keys_in(bytes@, 0),
{
    let mut out: Vec<Key> = Vec::new();
    let mut i: usize = 0;
    assert(out@ + keys_in(bytes@, 0) =~= keys_in(bytes@, 0));
    while i < bytes.len()
        invariant
            i <= bytes@.len(),
            out@ + keys_in(bytes@, i as int) == keys_in(bytes@, 0),
        decreases bytes@.len() - i,
    {
        proof {
            keys_advance(bytes@, i as int);
        }
        let ghost before = out@;
        let (key, next) = take_key(bytes, i);
        match key {
            Some(k) => {
                out.push(k);
                assert(before + (seq![k] + keys_in(bytes@, next as int)) =~= out@ + keys_in(bytes@, next as int));
            },
            None => {},
        }
        i = next;
    }
    assert(out@ + seq![] =~= out@);
    out
}

/// What `stty size` says, rows and then columns, as columns and rows; what it does not say,
/// or says is nothing, is taken to be 80 by 24.
pub open spec fn size_of(s: Seq<char>) -> (int, int) {
    let w = text::words(s, 0);
    let rows = text::number_within(w[0], 10, 0, u64::MAX as int);
    let cols = text::number_within(w[1], 10, 0, u64::MAX as int);
    if w.len() >= 2 && w[0][0] != '-' && w[1][0] != '-' && rows is Some && cols is Some && 0 < rows->0 <= usize::MAX && 0 < cols->0 <= usize::MAX {
        (cols->0, rows->0)
    } else {
        (80, 24)
    }
}

/// The columns and rows of a terminal, from what `stty size` printed. A pseudo-terminal
/// nobody sized reports `0 0`.
pub fn terminal_size(printed: &str) -> (r: (usize, usize))
    ensures
        (r.0 as int, r.1 as int) == size_of(printed@),
{
    let c = text::chars(printed);
    let words = text::split_words(c.as_slice());
    let ghost w = text::char_views(words@);
    if words.len() < 2 {
        return (80, 24);
    }
    assert(w[0] == words@[0]@ && w[1] == words@[1]@);
    let rows = text::parse_u64(words[0].as_slice(), 10);
    let cols = text::parse_u64(words[1].as_slice(), 10);
    match (rows, cols) {
        (Some(r), Some(c)) => {
            if 0 < r && r <= usize::MAX as u64 && 0 < c && c <= usize::MAX as u64 {
                (c as usize, r as usize)
            } else {
                (80, 24)
            }
        },
        _ => (80, 24),
    }
}

} // verus!
