//! The configuration language: parsing `.kcfg` files into a symbol table, and
//! resolving a complete configuration from it.
//!
//! Shaped like Kconfig because that shape is proven and familiar, with stricter typing
//! and better error reporting.

pub mod clauses;
pub mod draws;
pub mod expr;
pub mod faults;
pub mod parse;
pub mod random;
pub mod resolve;
pub mod rules;
pub mod sources;
pub mod table;
pub mod written;

use vstd::prelude::*;
use vstd::string::*;

use crate::text;

pub use expr::{Expr, Tri};
pub use resolve::Resolution;

verus! {

/// The symbol that says whether loadable modules can be built. Without it a `tristate`
/// cannot be asked to be `m`.
pub const MODULES: &'static str = "MODULES";

#[derive(Debug, Clone, Copy, PartialEq, Eq, Structural)]
pub enum Kind {
    Bool,
    Tristate,
    Int,
    Hex,
    Str,
}

/// The keyword that declares a kind.
pub open spec fn kind_name(k: Kind) -> Seq<char> {
    match k {
        Kind::Bool => "bool"@,
        Kind::Tristate => "tristate"@,
        Kind::Int => "int"@,
        Kind::Hex => "hex"@,
        Kind::Str => "string"@,
    }
}

impl Kind {
    pub fn name(self) -> (r: &'static str)
        ensures
            r@ == kind_name(self),
    {
        match self {
            Kind::Bool => "bool",
            Kind::Tristate => "tristate",
            Kind::Int => "int",
            Kind::Hex => "hex",
            Kind::Str => "string",
        }
    }
}

#[derive(Debug, PartialEq)]
pub enum Val {
    /// Covers both `bool` (N or Y only) and `tristate`.
    Tri(Tri),
    Int(i64),
    Hex(u64),
    Str(String),
}

/// A value over mathematical numbers and strings.
pub enum Value {
    Tri(Tri),
    Int(int),
    Hex(int),
    Str(Seq<char>),
}

impl View for Val {
    type V = Value;

    open spec fn view(&self) -> Value {
        match *self {
            Val::Tri(t) => Value::Tri(t),
            Val::Int(i) => Value::Int(i as int),
            Val::Hex(h) => Value::Hex(h as int),
            Val::Str(s) => Value::Str(s@),
        }
    }
}

/// The value of a symbol nothing has set.
pub open spec fn zero(k: Kind) -> Value {
    match k {
        Kind::Bool => Value::Tri(Tri::N),
        Kind::Tristate => Value::Tri(Tri::N),
        Kind::Int => Value::Int(0),
        Kind::Hex => Value::Hex(0),
        Kind::Str => Value::Str(seq![]),
    }
}

/// What a value is worth in an expression: anything but zero and the empty string is on.
pub open spec fn truth(v: Value) -> Tri {
    match v {
        Value::Tri(t) => t,
        Value::Int(i) => if i != 0 {
            Tri::Y
        } else {
            Tri::N
        },
        Value::Hex(h) => if h != 0 {
            Tri::Y
        } else {
            Tri::N
        },
        Value::Str(s) => if s.len() > 0 {
            Tri::Y
        } else {
            Tri::N
        },
    }
}

/// A string as Rust's debug format quotes it.
pub uninterp spec fn quoted(s: Seq<char>) -> Seq<char>;

/// Whether a string holds printable ASCII alone, and neither `"` nor `\`.
pub open spec fn is_plain(s: Seq<char>) -> bool {
    forall|i: int| 0 <= i < s.len() ==> ' ' <= #[trigger] s[i] <= '~' && s[i] != '"' && s[i] != '\\'
}

/// A string in quotation marks, with what cannot stand in a string literal escaped.
pub open spec fn quotation(s: Seq<char>) -> Seq<char> {
    if is_plain(s) {
        seq!['"'] + s + seq!['"']
    } else {
        quoted(s)
    }
}

/// `format!` with `{:?}` on a string: printable ASCII without `"` and `\` stands between quotation
/// marks as it is. How any other string is escaped is left a name.
#[verifier::external_body]
fn quote(s: &str) -> (r: String)
    ensures
        is_plain(s@) ==> r@ == seq!['"'] + s@ + seq!['"'],
        !is_plain(s@) ==> r@ == quoted(s@),
{
    format!("{s:?}")
}

/// How a value is written in `.config` and in generated Rust.
pub open spec fn written(v: Value) -> Seq<char> {
    match v {
        Value::Tri(t) => expr::tri_text(t),
        Value::Int(i) => text::decimal(i),
        Value::Hex(h) => "0x"@ + text::digits(h as nat, 16),
        Value::Str(s) => quotation(s),
    }
}

/// The form of a value that `=` in an expression compares with.
pub open spec fn literal(v: Value) -> Seq<char> {
    match v {
        Value::Str(s) => s,
        _ => written(v),
    }
}

impl Clone for Val {
    fn clone(&self) -> (r: Val)
        ensures
            r@ == self@,
    {
        match self {
            Val::Tri(t) => Val::Tri(*t),
            Val::Int(i) => Val::Int(*i),
            Val::Hex(h) => Val::Hex(*h),
            Val::Str(s) => Val::Str(s.clone()),
        }
    }
}

impl Val {
    pub fn zero(kind: Kind) -> (r: Val)
        ensures
            r@ == zero(kind),
    {
        match kind {
            Kind::Bool => Val::Tri(Tri::N),
            Kind::Tristate => Val::Tri(Tri::N),
            Kind::Int => Val::Int(0),
            Kind::Hex => Val::Hex(0),
            Kind::Str => Val::Str(String::new()),
        }
    }

    pub fn as_tri(&self) -> (r: Tri)
        ensures
            r == truth(self@),
    {
        match self {
            Val::Tri(t) => *t,
            // A non-empty int or string is truthy when named in an expression.
            Val::Int(i) => if *i != 0 {
                Tri::Y
            } else {
                Tri::N
            },
            Val::Hex(h) => if *h != 0 {
                Tri::Y
            } else {
                Tri::N
            },
            Val::Str(s) => if !s.as_str().is_empty() {
                Tri::Y
            } else {
                Tri::N
            },
        }
    }

    pub fn is_on(&self) -> (r: bool)
        ensures
            r == (truth(self@) != Tri::N),
    {
        self.as_tri() != Tri::N
    }

    /// How the value is written in `.config` and in generated Rust.
    pub fn display(&self) -> (r: String)
        ensures
            r@ == written(self@),
    {
        match self {
            Val::Tri(t) => t.as_str().to_owned(),
            Val::Int(i) => text::int_text(*i as i128),
            Val::Hex(h) => {
                let mut r = "0x".to_owned();
                r.append(text::radix_text(*h as u128, 16).as_str());
                r
            },
            Val::Str(s) => quote(s.as_str()),
        }
    }

    /// The form of the value that `=` in an expression compares with.
    pub fn literal(&self) -> (r: String)
        ensures
            r@ == literal(self@),
    {
        match self {
            Val::Str(s) => s.clone(),
            _ => self.display(),
        }
    }

    /// Whether two values are the same.
    pub fn same(&self, other: &Val) -> (r: bool)
        ensures
            r == (self@ == other@),
    {
        match (self, other) {
            (Val::Tri(a), Val::Tri(b)) => *a == *b,
            (Val::Int(a), Val::Int(b)) => *a == *b,
            (Val::Hex(a), Val::Hex(b)) => *a == *b,
            (Val::Str(a), Val::Str(b)) => *a == *b,
            _ => false,
        }
    }
}

/// What an optional condition says.
pub open spec fn opt_cond(c: Option<Expr>) -> Option<expr::Cond> {
    match c {
        Some(e) => Some(e@),
        None => None,
    }
}

/// What an optional string holds.
pub open spec fn opt_text(s: Option<String>) -> Option<Seq<char>> {
    match s {
        Some(t) => Some(t@),
        None => None,
    }
}

/// What an optional index is.
pub open spec fn opt_index(i: Option<usize>) -> Option<int> {
    match i {
        Some(n) => Some(n as int),
        None => None,
    }
}

/// One `default <value> [if <condition>]` clause.
#[derive(Debug)]
pub struct Default {
    pub value: Val,
    pub cond: Option<Expr>,
}

/// A `default` clause over mathematical values.
pub struct Fallback {
    pub value: Value,
    pub cond: Option<expr::Cond>,
}

impl View for Default {
    type V = Fallback;

    open spec fn view(&self) -> Fallback {
        Fallback { value: self.value@, cond: opt_cond(self.cond) }
    }
}

/// What a list of `default` clauses says.
pub open spec fn fallbacks(v: Seq<Default>) -> Seq<Fallback> {
    Seq::new(v.len(), |i: int| v[i]@)
}

/// One `select <SYMBOL> [if <condition>]` clause.
#[derive(Debug)]
pub struct Select {
    pub target: String,
    pub cond: Option<Expr>,
}

/// A `select` clause over mathematical strings.
pub struct Pull {
    pub target: Seq<char>,
    pub cond: Option<expr::Cond>,
}

impl View for Select {
    type V = Pull;

    open spec fn view(&self) -> Pull {
        Pull { target: self.target@, cond: opt_cond(self.cond) }
    }
}

/// What a list of `select` clauses says.
pub open spec fn pulls(v: Seq<Select>) -> Seq<Pull> {
    Seq::new(v.len(), |i: int| v[i]@)
}

/// One `range <low> <high> [if <condition>]` clause. The bounds are those of an `int` or
/// of a `hex`, so they need more than 64 bits.
#[derive(Debug)]
pub struct Range {
    pub lo: i128,
    pub hi: i128,
    pub cond: Option<Expr>,
}

/// A `range` clause over mathematical numbers.
pub struct Span {
    pub lo: int,
    pub hi: int,
    pub cond: Option<expr::Cond>,
}

impl View for Range {
    type V = Span;

    open spec fn view(&self) -> Span {
        Span { lo: self.lo as int, hi: self.hi as int, cond: opt_cond(self.cond) }
    }
}

/// What a list of `range` clauses says.
pub open spec fn spans(v: Seq<Range>) -> Seq<Span> {
    Seq::new(v.len(), |i: int| v[i]@)
}

#[derive(Debug)]
pub struct Origin {
    pub file: String,
    pub line: usize,
}

/// Where something was declared.
pub struct Place {
    pub file: Seq<char>,
    pub line: int,
}

impl View for Origin {
    type V = Place;

    open spec fn view(&self) -> Place {
        Place { file: self.file@, line: self.line as int }
    }
}

/// A place as messages name it.
pub open spec fn place_text(p: Place) -> Seq<char> {
    p.file + ":"@ + text::decimal(p.line)
}

impl Origin {
    /// The place as messages name it.
    pub fn to_text(&self) -> (r: String)
        ensures
            r@ == place_text(self@),
    {
        let mut r = self.file.clone();
        r.append(":");
        r.append(text::int_text(self.line as i128).as_str());
        r
    }
}

#[derive(Debug)]
pub struct Symbol {
    pub name: String,
    pub kind: Kind,
    pub prompt: Option<String>,
    pub depends: Option<Expr>,
    pub defaults: Vec<Default>,
    pub selects: Vec<Select>,
    /// The first clause whose condition holds is the one that applies.
    pub ranges: Vec<Range>,
    pub help: Option<String>,
    /// Set for `ARCH_HAS_*` and other symbols the architecture asserts; these
    /// describe hardware and are not user-settable.
    pub readonly: bool,
    /// Name of the enclosing `choice`, if any.
    pub choice: Option<String>,
    /// The enclosing `menu`, by its place in the table.
    pub menu: Option<usize>,
    pub origin: Origin,
}

/// A symbol over mathematical values.
pub struct Sym {
    pub name: Seq<char>,
    pub kind: Kind,
    pub prompt: Option<Seq<char>>,
    pub depends: Option<expr::Cond>,
    pub defaults: Seq<Fallback>,
    pub selects: Seq<Pull>,
    pub ranges: Seq<Span>,
    pub help: Option<Seq<char>>,
    pub readonly: bool,
    pub choice: Option<Seq<char>>,
    pub menu: Option<int>,
    pub origin: Place,
}

impl View for Symbol {
    type V = Sym;

    open spec fn view(&self) -> Sym {
        Sym {
            name: self.name@,
            kind: self.kind,
            prompt: opt_text(self.prompt),
            depends: opt_cond(self.depends),
            defaults: fallbacks(self.defaults@),
            selects: pulls(self.selects@),
            ranges: spans(self.ranges@),
            help: opt_text(self.help),
            readonly: self.readonly,
            choice: opt_text(self.choice),
            menu: opt_index(self.menu),
            origin: self.origin@,
        }
    }
}

/// Whether a person can set a symbol: it has a prompt, and the hardware does not decide it.
pub open spec fn can_set(s: Sym) -> bool {
    s.prompt is Some && !s.readonly
}

impl Symbol {
    /// Whether a person can set the symbol.
    pub fn settable(&self) -> (r: bool)
        ensures
            r == can_set(self@),
    {
        self.prompt.is_some() && !self.readonly
    }
}

#[derive(Debug)]
pub struct Choice {
    pub name: String,
    pub prompt: Option<String>,
    pub members: Vec<String>,
    pub defaults: Vec<Default>,
    pub depends: Option<Expr>,
    /// The enclosing `menu`, by its place in the table.
    pub menu: Option<usize>,
    pub origin: Origin,
}

/// A choice over mathematical values.
pub struct Group {
    pub name: Seq<char>,
    pub prompt: Option<Seq<char>>,
    pub members: Seq<Seq<char>>,
    pub defaults: Seq<Fallback>,
    pub depends: Option<expr::Cond>,
    pub menu: Option<int>,
    pub origin: Place,
}

impl View for Choice {
    type V = Group;

    open spec fn view(&self) -> Group {
        Group {
            name: self.name@,
            prompt: opt_text(self.prompt),
            members: text::views(self.members@),
            defaults: fallbacks(self.defaults@),
            depends: opt_cond(self.depends),
            menu: opt_index(self.menu),
            origin: self.origin@,
        }
    }
}

/// A `menu`, and the one it stands in.
#[derive(Debug)]
pub struct Menu {
    pub title: String,
    pub parent: Option<usize>,
}

/// A menu over mathematical values.
pub struct Page {
    pub title: Seq<char>,
    pub parent: Option<int>,
}

impl View for Menu {
    type V = Page;

    open spec fn view(&self) -> Page {
        Page { title: self.title@, parent: opt_index(self.parent) }
    }
}

#[derive(Debug)]
pub struct SymbolTable {
    /// In declaration order, which resolution follows so that behaviour is stable.
    pub symbols: Vec<Symbol>,
    /// In the order of their names.
    pub choices: Vec<Choice>,
    /// In declaration order.
    pub menus: Vec<Menu>,
}

/// A symbol table over mathematical values.
pub struct Table {
    pub symbols: Seq<Sym>,
    pub choices: Seq<Group>,
    pub menus: Seq<Page>,
}

impl View for SymbolTable {
    type V = Table;

    open spec fn view(&self) -> Table {
        Table {
            symbols: Seq::new(self.symbols@.len(), |i: int| self.symbols@[i]@),
            choices: Seq::new(self.choices@.len(), |i: int| self.choices@[i]@),
            menus: Seq::new(self.menus@.len(), |i: int| self.menus@[i]@),
        }
    }
}

/// Where the symbol called `name` stands among `syms` from `i` on, if it does.
pub open spec fn sym_from(syms: Seq<Sym>, name: Seq<char>, i: int) -> Option<int>
    decreases syms.len() - i,
{
    if i < 0 || i >= syms.len() {
        None
    } else if syms[i].name == name {
        Some(i)
    } else {
        sym_from(syms, name, i + 1)
    }
}

/// Where the choice called `name` stands among `groups` from `i` on, if it does.
pub open spec fn group_from(groups: Seq<Group>, name: Seq<char>, i: int) -> Option<int>
    decreases groups.len() - i,
{
    if i < 0 || i >= groups.len() {
        None
    } else if groups[i].name == name {
        Some(i)
    } else {
        group_from(groups, name, i + 1)
    }
}

/// Whether a menu exists, or none is named.
pub open spec fn menu_exists(t: Table, m: Option<int>) -> bool {
    m is Some ==> 0 <= m->0 < t.menus.len()
}

/// A table that the other parts can rely on: names are unique, every member of a choice is
/// a symbol that says so, every choice and menu that is named exists, a menu stands in an earlier one,
/// and choices are in the order of their names.
pub open spec fn well_formed(t: Table) -> bool {
    &&& forall|i: int, j: int| 0 <= i < j < t.symbols.len() ==> #[trigger] t.symbols[i].name != #[trigger] t.symbols[j].name
    &&& forall|i: int, j: int|
        0 <= i < j < t.choices.len() ==> text::before(#[trigger] t.choices[i].name, #[trigger] t.choices[j].name)
    &&& forall|c: int, m: int|
        0 <= c < t.choices.len() && 0 <= m < t.choices[c].members.len() ==> belongs(
            t,
            #[trigger] t.choices[c].members[m],
            t.choices[c].name,
        )
    &&& forall|i: int| 0 <= i < t.symbols.len() ==> sym_sound(t, #[trigger] t.symbols[i])
    &&& forall|i: int| 0 <= i < t.choices.len() ==> menu_exists(t, (#[trigger] t.choices[i]).menu)
    &&& forall|i: int|
        0 <= i < t.menus.len() && (#[trigger] t.menus[i]).parent is Some ==> 0 <= t.menus[i].parent->0 < i
}

/// Whether `name` is a symbol that says it belongs to `choice`.
pub open spec fn belongs(t: Table, name: Seq<char>, choice: Seq<char>) -> bool {
    match sym_from(t.symbols, name, 0) {
        Some(i) => t.symbols[i].choice == Some(choice),
        None => false,
    }
}

/// A symbol that belongs in a table: the choice and the menu it names are there, and its
/// bounds are those of a 64-bit number.
pub open spec fn sym_sound(t: Table, s: Sym) -> bool {
    &&& s.choice is Some ==> group_from(t.choices, s.choice->0, 0) is Some
    &&& menu_exists(t, s.menu)
    &&& forall|k: int|
        0 <= k < s.ranges.len() ==> i64::MIN <= (#[trigger] s.ranges[k]).lo <= s.ranges[k].hi <= u64::MAX
}

impl SymbolTable {
    pub fn new() -> (r: SymbolTable)
        ensures
            r@ == (Table { symbols: seq![], choices: seq![], menus: seq![] }),
            well_formed(r@),
    {
        let r = SymbolTable { symbols: Vec::new(), choices: Vec::new(), menus: Vec::new() };
        assert(r@.symbols =~= seq![]);
        assert(r@.choices =~= seq![]);
        assert(r@.menus =~= seq![]);
        r
    }

    /// Where the symbol called `name` stands.
    pub fn index_of(&self, name: &str) -> (r: Option<usize>)
        ensures
            opt_index(r) == sym_from(self@.symbols, name@, 0),
            r is Some ==> r->0 < self.symbols@.len() && self.symbols@[r->0 as int].name@ == name@,
    {
        let wanted = name.to_owned();
        let mut i: usize = 0;
        while i < self.symbols.len()
            invariant
                i <= self.symbols@.len(),
                wanted@ == name@,
                sym_from(self@.symbols, name@, 0) == sym_from(self@.symbols, name@, i as int),
            decreases self.symbols@.len() - i,
        {
            assert(self@.symbols[i as int] == self.symbols@[i as int]@);
            if self.symbols[i].name == wanted {
                return Some(i);
            }
            i += 1;
        }
        None
    }

    pub fn get(&self, name: &str) -> (r: Option<&Symbol>)
        ensures
            match r {
                Some(s) => sym_from(self@.symbols, name@, 0) is Some && s@ == self@.symbols[sym_from(
                    self@.symbols,
                    name@,
                    0,
                )->0],
                None => sym_from(self@.symbols, name@, 0) is None,
            },
    {
        match self.index_of(name) {
            Some(i) => {
                assert(self@.symbols[i as int] == self.symbols@[i as int]@);
                Some(&self.symbols[i])
            },
            None => None,
        }
    }

    /// Where the choice called `name` stands.
    pub fn choice_index(&self, name: &str) -> (r: Option<usize>)
        ensures
            opt_index(r) == group_from(self@.choices, name@, 0),
            r is Some ==> r->0 < self.choices@.len() && self.choices@[r->0 as int].name@ == name@,
    {
        let wanted = name.to_owned();
        let mut i: usize = 0;
        while i < self.choices.len()
            invariant
                i <= self.choices@.len(),
                wanted@ == name@,
                group_from(self@.choices, name@, 0) == group_from(self@.choices, name@, i as int),
            decreases self.choices@.len() - i,
        {
            assert(self@.choices[i as int] == self.choices@[i as int]@);
            if self.choices[i].name == wanted {
                return Some(i);
            }
            i += 1;
        }
        None
    }

    /// The choice called `name`.
    pub fn choice(&self, name: &str) -> (r: Option<&Choice>)
        ensures
            match r {
                Some(c) => group_from(self@.choices, name@, 0) is Some && c@ == self@.choices[group_from(
                    self@.choices,
                    name@,
                    0,
                )->0],
                None => group_from(self@.choices, name@, 0) is None,
            },
    {
        match self.choice_index(name) {
            Some(i) => {
                assert(self@.choices[i as int] == self.choices@[i as int]@);
                Some(&self.choices[i])
            },
            None => None,
        }
    }
}

} // verus!
