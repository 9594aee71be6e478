//! Parser for `.kcfg` files.
//!
//! ```text
//! config SMP
//!     bool "Symmetric multiprocessing"
//!     depends on ARCH_HAS_SMP
//!     default y if ARCH_HAS_SMP
//!     help
//!         Support more than one CPU.
//!
//! choice MM_MODEL
//!     prompt "Memory model"
//!     default MM_PAGED if ARCH_HAS_MMU
//!     config MM_PAGED
//!         bool "Paged virtual memory"
//!         depends on ARCH_HAS_MMU
//! endchoice
//!
//! menu "Drivers"
//! source "drivers.kcfg"
//! endmenu
//! ```

use vstd::prelude::*;
use vstd::slice::slice_subrange;
use vstd::string::*;

use super::expr;
use super::expr::{Expr, Tri};
use super::table;
use super::{Choice, Kind, Menu, Origin, Range, Select, Symbol, SymbolTable, Val};
use crate::text;

verus! {

/// `s` without any `c` in it.
pub open spec fn without(s: Seq<char>, c: char) -> Seq<char>
    decreases s.len(),
{
    if s.len() == 0 {
        s
    } else if s.last() == c {
        without(s.drop_last(), c)
    } else {
        without(s.drop_last(), c).push(s.last())
    }
}

/// What stands between the quotation marks, if `s` has them at both ends.
pub open spec fn unquoted(s: Seq<char>) -> Seq<char> {
    if s.len() >= 2 && s[0] == '"' && s.last() == '"' {
        s.subrange(1, s.len() - 1)
    } else {
        s
    }
}

/// Whether a number is written in hexadecimal.
pub open spec fn is_hex(s: Seq<char>) -> bool {
    s.len() >= 2 && s[0] == '0' && s[1] == 'x'
}

/// The number an `int` is written as: decimal, or hexadecimal behind `0x`.
pub open spec fn int_of(s: Seq<char>) -> Option<int> {
    if is_hex(s) {
        text::number_within(s.subrange(2, s.len() as int), 16, i64::MIN as int, i64::MAX as int)
    } else {
        text::number_within(s, 10, i64::MIN as int, i64::MAX as int)
    }
}

/// The number a `hex` is written as: hexadecimal, the `0x` optional, and no minus sign.
pub open spec fn hex_of(s: Seq<char>) -> Option<int> {
    let t = if is_hex(s) {
        s.subrange(2, s.len() as int)
    } else {
        s
    };
    if t.len() > 0 && t[0] == '-' {
        None
    } else {
        text::number_within(t, 16, 0, u64::MAX as int)
    }
}

/// The value a text writes for a symbol of kind `k`, or what is wrong with it.
pub open spec fn value_of(txt: Seq<char>, k: Kind) -> Result<super::Value, Seq<char>> {
    let t = text::trimmed(txt);
    match k {
        Kind::Int => match int_of(without(t, '_')) {
            Some(v) => Ok(super::Value::Int(v)),
            None => Err("expected an integer, found `"@ + t + "`"@),
        },
        Kind::Hex => match hex_of(without(t, '_')) {
            Some(v) => Ok(super::Value::Hex(v)),
            None => Err("expected a hexadecimal number, found `"@ + t + "`"@),
        },
        Kind::Str => Ok(super::Value::Str(unquoted(t))),
        _ => match expr::tri_of(t) {
            None => Err("expected y/m/n, found `"@ + t + "`"@),
            Some(v) => if k == Kind::Bool && v == Tri::M {
                Err("`m` is not valid for a bool symbol"@)
            } else {
                Ok(super::Value::Tri(v))
            },
        },
    }
}

fn remove_char(s: &[char], c: char) -> (r: Vec<char>)
    ensures
        r@ == without(s@, c),
{
    let mut r: Vec<char> = Vec::new();
    let mut i: usize = 0;
    assert(s@.subrange(0, 0) =~= seq![]);
    while i < s.len()
        invariant
            i <= s@.len(),
            r@ == without(s@.subrange(0, i as int), c),
        decreases s@.len() - i,
    {
        assert(s@.subrange(0, i + 1).drop_last() =~= s@.subrange(0, i as int));
        if s[i] != c {
            r.push(s[i]);
        }
        i += 1;
    }
    assert(s@.subrange(0, i as int) =~= s@);
    r
}

fn unquote(s: &[char]) -> (r: Vec<char>)
    ensures
        r@ == unquoted(s@),
{
    if s.len() >= 2 && s[0] == '"' && s[s.len() - 1] == '"' {
        text::part(s, 1, s.len() - 1)
    } else {
        let r = text::part(s, 0, s.len());
        assert(r@ =~= s@);
        r
    }
}

fn found(lead: &str, t: &[char]) -> (r: String)
    ensures
        r@ == lead@ + t@ + "`"@,
{
    let mut m = lead.to_owned();
    m.append(text::string(t).as_str());
    m.append("`");
    m
}

fn parse_int(s: &[char]) -> (r: Option<i64>)
    ensures
        match r {
            Some(v) => int_of(s@) == Some(v as int),
            None => int_of(s@) is None,
        },
{
    if s.len() >= 2 && s[0] == '0' && s[1] == 'x' {
        text::parse_i64(slice_subrange(s, 2, s.len()), 16)
    } else {
        text::parse_i64(s, 10)
    }
}

fn parse_hex(s: &[char]) -> (r: Option<u64>)
    ensures
        match r {
            Some(v) => hex_of(s@) == Some(v as int),
            None => hex_of(s@) is None,
        },
{
    if s.len() >= 2 && s[0] == '0' && s[1] == 'x' {
        text::parse_u64(slice_subrange(s, 2, s.len()), 16)
    } else {
        text::parse_u64(s, 16)
    }
}

/// Parse a value written in a `.kcfg` default, a preset, or `--set`.
pub fn parse_val_pub(txt: &str, kind: Kind) -> (r: Result<Val, String>)
    ensures
        match r {
            Ok(v) => value_of(txt@, kind) == Ok::<super::Value, Seq<char>>(v@),
            Err(m) => value_of(txt@, kind) == Err::<super::Value, Seq<char>>(m@),
        },
{
    let c = text::chars(txt);
    parse_val(c.as_slice(), kind)
}

fn parse_val(txt: &[char], kind: Kind) -> (r: Result<Val, String>)
    ensures
        match r {
            Ok(v) => value_of(txt@, kind) == Ok::<super::Value, Seq<char>>(v@),
            Err(m) => value_of(txt@, kind) == Err::<super::Value, Seq<char>>(m@),
        },
{
    let t = text::trim(txt);
    match kind {
        Kind::Int => {
            let cleaned = remove_char(t.as_slice(), '_');
            match parse_int(cleaned.as_slice()) {
                Some(v) => Ok(Val::Int(v)),
                None => Err(found("expected an integer, found `", t.as_slice())),
            }
        },
        Kind::Hex => {
            let cleaned = remove_char(t.as_slice(), '_');
            match parse_hex(cleaned.as_slice()) {
                Some(v) => Ok(Val::Hex(v)),
                None => Err(found("expected a hexadecimal number, found `", t.as_slice())),
            }
        },
        Kind::Str => {
            let u = unquote(t.as_slice());
            Ok(Val::Str(text::string(u.as_slice())))
        },
        _ => {
            let s = text::string(t.as_slice());
            match Tri::from_str(s.as_str()) {
                None => Err(found("expected y/m/n, found `", t.as_slice())),
                Some(v) => {
                    if kind == Kind::Bool && v == Tri::M {
                        Err("`m` is not valid for a bool symbol".to_owned())
                    } else {
                        Ok(Val::Tri(v))
                    }
                },
            }
        },
    }
}

// ---- files ----

#[derive(Debug)]
pub struct ParseError {
    pub file: String,
    pub line: usize,
    pub msg: String,
}

/// An error over mathematical values.
pub struct Wrong {
    pub file: Seq<char>,
    pub line: int,
    pub msg: Seq<char>,
}

impl View for ParseError {
    type V = Wrong;

    open spec fn view(&self) -> Wrong {
        Wrong { file: self.file@, line: self.line as int, msg: self.msg@ }
    }
}

/// An error as a person reads it.
pub open spec fn wrong_text(w: Wrong) -> Seq<char> {
    w.file + ":"@ + text::decimal(w.line) + ": "@ + w.msg
}

impl ParseError {
    /// The error as a person reads it.
    pub fn to_text(&self) -> (r: String)
        ensures
            r@ == wrong_text(self@),
    {
        let mut r = self.file.clone();
        r.append(":");
        r.append(text::int_text(self.line as i128).as_str());
        r.append(": ");
        r.append(self.msg.as_str());
        r
    }
}

/// A file of the tree: where it is, and what it holds or why it could not be read.
pub struct SourceFile {
    pub path: String,
    pub text: Result<String, String>,
}

/// A file over mathematical strings.
pub struct Doc {
    pub path: Seq<char>,
    pub text: Result<Seq<char>, Seq<char>>,
}

impl View for SourceFile {
    type V = Doc;

    open spec fn view(&self) -> Doc {
        Doc {
            path: self.path@,
            text: match self.text {
                Ok(t) => Ok(t@),
                Err(e) => Err(e@),
            },
        }
    }
}

/// What a list of files holds.
pub open spec fn docs(v: Seq<SourceFile>) -> Seq<Doc> {
    Seq::new(v.len(), |i: int| v[i]@)
}

/// Where the last `/` before `i` stands, or -1.
pub open spec fn last_slash(p: Seq<char>, i: int) -> int
    decreases i,
{
    if i <= 0 || i > p.len() {
        -1
    } else if p[i - 1] == '/' {
        i - 1
    } else {
        last_slash(p, i - 1)
    }
}

/// `target` as seen from the directory that holds `path`.
pub open spec fn beside(path: Seq<char>, target: Seq<char>) -> Seq<char> {
    if target.len() > 0 && target[0] == '/' {
        target
    } else {
        path.subrange(0, last_slash(path, path.len() as int) + 1) + target
    }
}

fn path_beside(path: &str, target: &[char]) -> (r: String)
    ensures
        r@ == beside(path@, target@),
{
    if target.len() > 0 && target[0] == '/' {
        return text::string(target);
    }
    let p = text::chars(path);
    let mut i: usize = p.len();
    while i > 0 && p[i - 1] != '/'
        invariant
            i <= p@.len(),
            p@ == path@,
            last_slash(p@, p@.len() as int) == last_slash(p@, i as int),
        decreases i,
    {
        i -= 1;
    }
    let mut r = text::string(text::part(p.as_slice(), 0, i).as_slice());
    r.append(text::string(target).as_str());
    r
}

/// Whether `c` is what ASCII calls white space.
pub open spec fn ascii_space(c: char) -> bool {
    c == ' ' || c == '\t' || c == '\n' || c == '\r' || c as u32 == 0xc
}

/// Whether the word `if` stands at `i`, with nothing but white space next to it.
pub open spec fn if_at(s: Seq<char>, i: int) -> bool {
    &&& 0 <= i && i + 2 <= s.len() && s[i] == 'i' && s[i + 1] == 'f'
    &&& i == 0 || ascii_space(s[i - 1])
    &&& i + 2 == s.len() || ascii_space(s[i + 2])
}

/// The first place from `i` on where the word `if` stands, or the end.
pub open spec fn find_if(s: Seq<char>, i: int) -> int
    decreases s.len() - i,
{
    if i < 0 || i >= s.len() || if_at(s, i) {
        i
    } else {
        find_if(s, i + 1)
    }
}

/// The two halves of `VALUE if CONDITION`.
pub open spec fn halves(s: Seq<char>) -> (Seq<char>, Option<Seq<char>>) {
    let p = find_if(s, 0);
    if p < s.len() {
        (text::trimmed(s.subrange(0, p)), Some(text::trimmed(s.subrange(p + 2, s.len() as int))))
    } else {
        (text::trimmed(s), None)
    }
}

fn is_ascii_space(c: char) -> (r: bool)
    ensures
        r == ascii_space(c),
{
    c == ' ' || c == '\t' || c == '\n' || c == '\r' || c as u32 == 0xc
}

fn find_kw(s: &[char]) -> (r: Option<usize>)
    ensures
        match r {
            Some(p) => p == find_if(s@, 0) && if_at(s@, p as int),
            None => find_if(s@, 0) >= s@.len(),
        },
{
    let mut i: usize = 0;
    while i < s.len()
        invariant
            i <= s@.len(),
            find_if(s@, 0) == find_if(s@, i as int),
        decreases s@.len() - i,
    {
        let ghost n = s.len();
        if s.len() - i >= 2 && s[i] == 'i' && s[i + 1] == 'f' && (i == 0 || is_ascii_space(s[i - 1])) && (i + 2
            == s.len() || is_ascii_space(s[i + 2])) {
            return Some(i);
        }
        i += 1;
    }
    None
}

fn split_if_chars(s: &[char]) -> (r: (Vec<char>, Option<Vec<char>>))
    ensures
        r.0@ == halves(s@).0,
        match r.1 {
            Some(c) => halves(s@).1 == Some(c@),
            None => halves(s@).1 is None,
        },
{
    let ghost n = s.len();
    match find_kw(s) {
        Some(p) => (
            text::trim(slice_subrange(s, 0, p)),
            Some(text::trim(slice_subrange(s, p + 2, s.len()))),
        ),
        None => (text::trim(s), None),
    }
}

/// Split `VALUE if CONDITION` into its two halves.
pub fn split_if(s: &str) -> (r: (String, Option<String>))
    ensures
        r.0@ == halves(s@).0,
        super::opt_text(r.1) == halves(s@).1,
{
    let c = text::chars(s);
    let (v, cond) = split_if_chars(c.as_slice());
    (
        text::string(v.as_slice()),
        match cond {
            Some(c) => Some(text::string(c.as_slice())),
            None => None,
        },
    )
}

/// The number of bytes a character of white space takes.
pub open spec fn space_bytes(c: char) -> int {
    if (c as u32) < 0x80 {
        1
    } else if (c as u32) < 0x800 {
        2
    } else {
        3
    }
}

/// The number of bytes of white space that `s` holds from `i` to its first other character.
pub open spec fn margin(s: Seq<char>, i: int) -> int
    decreases s.len() - i,
{
    if 0 <= i < s.len() && text::space(s[i]) {
        space_bytes(s[i]) + margin(s, i + 1)
    } else {
        0
    }
}

fn indent_of(s: &[char]) -> (r: u128)
    ensures
        r == margin(s@, 0),
{
    let mut n: u128 = 0;
    let mut i: usize = 0;
    while i < s.len() && text::is_space(s[i])
        invariant
            i <= s@.len(),
            n <= 3 * i,
            margin(s@, 0) == n + margin(s@, i as int),
        decreases s@.len() - i,
    {
        let ghost len = s.len();
        let c = s[i] as u32;
        n += if c < 0x80 {
            1
        } else if c < 0x800 {
            2
        } else {
            3
        };
        i += 1;
    }
    n
}

/// How far a file has been read: the table so far, and the symbol, the choice and the menu
/// that what follows belongs to.
pub struct Reading {
    pub table: super::Table,
    pub cur: Option<int>,
    pub choice: Option<Seq<char>>,
    pub menu: Option<int>,
}

/// Where the open choice stands.
pub open spec fn open_choice(r: Reading) -> int {
    super::group_from(r.table.choices, r.choice->0, 0)->0
}

/// What `r` becomes when its open symbol is replaced.
pub open spec fn edit_cur(r: Reading, s: super::Sym) -> Reading {
    Reading { table: table::with_sym(r.table, r.cur->0, s), ..r }
}

/// What `r` becomes when its open choice is replaced.
pub open spec fn edit_choice(r: Reading, g: super::Group) -> Reading {
    Reading { table: table::with_group(r.table, open_choice(r), g), ..r }
}

/// `config <NAME>`
pub open spec fn took_config(r: Reading, file: Seq<char>, line: int, rest: Seq<char>) -> Result<Reading, Seq<char>> {
    let name = text::trimmed(rest);
    if name.len() == 0 {
        Err("`config` needs a name"@)
    } else if super::sym_from(r.table.symbols, name, 0) is Some {
        Err("symbol `"@ + name + "` is already defined"@)
    } else {
        let s = super::Sym {
            name,
            kind: Kind::Bool,
            prompt: None,
            depends: None,
            defaults: seq![],
            selects: seq![],
            ranges: seq![],
            help: None,
            readonly: false,
            choice: r.choice,
            menu: r.menu,
            origin: super::Place { file, line },
        };
        let grown = Reading {
            table: table::with_new_sym(r.table, s),
            cur: Some(r.table.symbols.len() as int),
            ..r
        };
        Ok(
            match r.choice {
                None => grown,
                Some(_) => {
                    let g = r.table.choices[open_choice(r)];
                    edit_choice(grown, super::Group { members: g.members.push(name), ..g })
                },
            },
        )
    }
}

/// `choice <NAME>`
pub open spec fn took_choice(r: Reading, file: Seq<char>, line: int, rest: Seq<char>) -> Result<Reading, Seq<char>> {
    let name = text::trimmed(rest);
    if name.len() == 0 {
        Err("`choice` needs a name"@)
    } else {
        let g = super::Group {
            name,
            prompt: None,
            members: seq![],
            defaults: seq![],
            depends: None,
            menu: r.menu,
            origin: super::Place { file, line },
        };
        Ok(Reading { table: table::with_choice(r.table, g), cur: None, choice: Some(name), menu: r.menu })
    }
}

/// `endchoice`
pub open spec fn took_endchoice(r: Reading) -> Result<Reading, Seq<char>> {
    if r.choice is None {
        Err("`endchoice` without `choice`"@)
    } else {
        Ok(Reading { choice: None, cur: None, ..r })
    }
}

/// `menu "<title>"`
pub open spec fn took_menu(r: Reading, rest: Seq<char>) -> Result<Reading, Seq<char>> {
    let title = unquoted(text::trimmed(rest));
    if title.len() == 0 {
        Err("`menu` needs a title"@)
    } else {
        Ok(
            Reading {
                table: table::with_menu(r.table, super::Page { title, parent: r.menu }),
                cur: None,
                menu: Some(r.table.menus.len() as int),
                ..r
            },
        )
    }
}

/// `endmenu`, in a file that stands in the menu `base`
pub open spec fn took_endmenu(r: Reading, base: Option<int>) -> Result<Reading, Seq<char>> {
    if r.menu == base || r.menu is None {
        Err("`endmenu` without `menu`"@)
    } else {
        Ok(Reading { menu: r.table.menus[r.menu->0].parent, cur: None, ..r })
    }
}

/// `bool`, `tristate`, `int`, `hex` or `string`, with the prompt behind it
pub open spec fn took_kind(r: Reading, kw: Seq<char>, kind: Kind, rest: Seq<char>) -> Result<Reading, Seq<char>> {
    if r.cur is None {
        Err("`"@ + kw + "` outside of a `config` block"@)
    } else {
        let p = text::trimmed(rest);
        let s = super::Sym { kind, ..r.table.symbols[r.cur->0] };
        Ok(
            edit_cur(
                r,
                if p.len() > 0 {
                    super::Sym { prompt: Some(unquoted(p)), ..s }
                } else {
                    s
                },
            ),
        )
    }
}

/// `prompt "<text>"`
pub open spec fn took_prompt(r: Reading, rest: Seq<char>) -> Result<Reading, Seq<char>> {
    let p = unquoted(text::trimmed(rest));
    if r.cur is Some {
        Ok(edit_cur(r, super::Sym { prompt: Some(p), ..r.table.symbols[r.cur->0] }))
    } else if r.choice is Some {
        Ok(edit_choice(r, super::Group { prompt: Some(p), ..r.table.choices[open_choice(r)] }))
    } else {
        Err("`prompt` outside a block"@)
    }
}

/// `depends on <expression>`
pub open spec fn took_depends(r: Reading, rest: Seq<char>) -> Result<Reading, Seq<char>> {
    let t = text::trimmed(rest);
    if !(t.len() >= 3 && t[0] == 'o' && t[1] == 'n' && t[2] == ' ') {
        Err("expected `depends on <expression>`"@)
    } else {
        match expr::condition(t.subrange(3, t.len() as int)) {
            Err(m) => Err(m),
            Ok(e) => if r.cur is Some {
                Ok(edit_cur(r, super::Sym { depends: Some(e), ..r.table.symbols[r.cur->0] }))
            } else if r.choice is Some {
                Ok(edit_choice(r, super::Group { depends: Some(e), ..r.table.choices[open_choice(r)] }))
            } else {
                Err("`depends on` outside a block"@)
            },
        }
    }
}

/// What an optional condition's text says, or what is wrong with it.
pub open spec fn opt_condition(c: Option<Seq<char>>) -> Result<Option<expr::Cond>, Seq<char>> {
    match c {
        None => Ok(None),
        Some(s) => match expr::condition(s) {
            Ok(e) => Ok(Some(e)),
            Err(m) => Err(m),
        },
    }
}

/// `select <SYMBOL> [if <condition>]`
pub open spec fn took_select(r: Reading, rest: Seq<char>) -> Result<Reading, Seq<char>> {
    let h = halves(text::trimmed(rest));
    if r.cur is None {
        Err("`select` outside a `config` block"@)
    } else {
        match opt_condition(h.1) {
            Err(m) => Err(m),
            Ok(cond) => {
                let s = r.table.symbols[r.cur->0];
                Ok(edit_cur(r, super::Sym { selects: s.selects.push(super::Pull { target: h.0, cond }), ..s }))
            },
        }
    }
}

/// `default <value> [if <condition>]`
pub open spec fn took_default(r: Reading, rest: Seq<char>) -> Result<Reading, Seq<char>> {
    let h = halves(text::trimmed(rest));
    match opt_condition(h.1) {
        Err(m) => Err(m),
        Ok(cond) => if r.cur is Some {
            let s = r.table.symbols[r.cur->0];
            match value_of(h.0, s.kind) {
                Err(m) => Err(m),
                Ok(value) => Ok(
                    edit_cur(r, super::Sym { defaults: s.defaults.push(super::Fallback { value, cond }), ..s }),
                ),
            }
        } else if r.choice is Some {
            // A choice's default names one of its members.
            let g = r.table.choices[open_choice(r)];
            let value = super::Value::Str(text::trimmed(h.0));
            Ok(edit_choice(r, super::Group { defaults: g.defaults.push(super::Fallback { value, cond }), ..g }))
        } else {
            Err("`default` outside a block"@)
        },
    }
}

/// The number a bound is written as: decimal, or hexadecimal behind `0x`.
pub open spec fn bound_of(s: Seq<char>) -> Option<int> {
    if is_hex(s) {
        hex_of(s)
    } else {
        text::number_within(s, 10, i64::MIN as int, i64::MAX as int)
    }
}

/// `range <low> <high> [if <condition>]`
pub open spec fn took_range(r: Reading, rest: Seq<char>) -> Result<Reading, Seq<char>> {
    let h = halves(text::trimmed(rest));
    let w = text::words(h.0, 0);
    if r.cur is None {
        Err("`range` outside a `config` block"@)
    } else if w.len() != 2 {
        Err("expected `range <low> <high>`"@)
    } else {
        match (bound_of(w[0]), bound_of(w[1])) {
            (None, _) => Err("bad range low"@),
            (_, None) => Err("bad range high"@),
            (Some(lo), Some(hi)) => if lo > hi {
                Err("range low "@ + text::decimal(lo) + " exceeds high "@ + text::decimal(hi))
            } else {
                match opt_condition(h.1) {
                    Err(m) => Err(m),
                    Ok(cond) => {
                        let s = r.table.symbols[r.cur->0];
                        Ok(edit_cur(r, super::Sym { ranges: s.ranges.push(super::Span { lo, hi, cond }), ..s }))
                    },
                }
            },
        }
    }
}

/// `readonly`
pub open spec fn took_readonly(r: Reading) -> Result<Reading, Seq<char>> {
    if r.cur is None {
        Err("`readonly` outside a `config` block"@)
    } else {
        Ok(edit_cur(r, super::Sym { readonly: true, ..r.table.symbols[r.cur->0] }))
    }
}

/// What a line other than `source` and `help` makes of what was read before it.
pub open spec fn took(
    r: Reading,
    base: Option<int>,
    file: Seq<char>,
    line: int,
    kw: Seq<char>,
    rest: Seq<char>,
) -> Result<Reading, Seq<char>> {
    if kw == "config"@ {
        took_config(r, file, line, rest)
    } else if kw == "choice"@ {
        took_choice(r, file, line, rest)
    } else if kw == "endchoice"@ {
        took_endchoice(r)
    } else if kw == "menu"@ {
        took_menu(r, rest)
    } else if kw == "endmenu"@ {
        took_endmenu(r, base)
    } else if kw == "bool"@ {
        took_kind(r, kw, Kind::Bool, rest)
    } else if kw == "tristate"@ {
        took_kind(r, kw, Kind::Tristate, rest)
    } else if kw == "int"@ {
        took_kind(r, kw, Kind::Int, rest)
    } else if kw == "hex"@ {
        took_kind(r, kw, Kind::Hex, rest)
    } else if kw == "string"@ {
        took_kind(r, kw, Kind::Str, rest)
    } else if kw == "prompt"@ {
        took_prompt(r, rest)
    } else if kw == "depends"@ {
        took_depends(r, rest)
    } else if kw == "select"@ {
        took_select(r, rest)
    } else if kw == "default"@ {
        took_default(r, rest)
    } else if kw == "range"@ {
        took_range(r, rest)
    } else if kw == "readonly"@ {
        took_readonly(r)
    } else {
        Err("unknown keyword `"@ + kw + "`"@)
    }
}

/// Where the help text that starts at line `i` ends: before the first line that is not
/// blank and not further in than `margin_of_help`.
pub open spec fn help_end(ls: Seq<Seq<char>>, i: int, margin_of_help: int) -> int
    decreases ls.len() - i,
{
    if 0 <= i < ls.len() && (text::trimmed(ls[i]).len() == 0 || margin(ls[i], 0) > margin_of_help) {
        help_end(ls, i + 1, margin_of_help)
    } else {
        i
    }
}

/// The lines from `i` up to `j`, each without its white space, each ended by a newline.
pub open spec fn help_lines(ls: Seq<Seq<char>>, i: int, j: int) -> Seq<char>
    decreases j - i,
{
    if j <= i {
        seq![]
    } else {
        help_lines(ls, i, j - 1) + text::trimmed(ls[j - 1]) + "\n"@
    }
}

/// The number of files not read yet.
pub open spec fn unseen(seen: Seq<bool>) -> nat
    decreases seen.len(),
{
    if seen.len() == 0 {
        0
    } else {
        unseen(seen.drop_last()) + if seen.last() {
            0nat
        } else {
            1nat
        }
    }
}

/// Where the file at `path` stands from `i` on, if it does.
pub open spec fn doc_from(files: Seq<Doc>, path: Seq<char>, i: int) -> Option<int>
    decreases files.len() - i,
{
    if i < 0 || i >= files.len() {
        None
    } else if files[i].path == path {
        Some(i)
    } else {
        doc_from(files, path, i + 1)
    }
}

/// What reading gives: the table and which files have been read, or what is wrong.
pub type Outcome = Result<(super::Table, Seq<bool>), Wrong>;

/// What `t` becomes when the file at `path` is read in the menu `base`, as part of the tree that
/// starts at `entry`. A file that was read before adds nothing.
pub open spec fn file_read(
    files: Seq<Doc>,
    entry: Seq<char>,
    path: Seq<char>,
    base: Option<int>,
    t: super::Table,
    seen: Seq<bool>,
) -> Outcome
    decreases unseen(seen), 0int, 0int,
{
    match doc_from(files, path, 0) {
        None => Err(Wrong { file: path, line: 0, msg: "cannot read: no such file"@ }),
        Some(k) => if seen[k] {
            Ok((t, seen))
        } else {
            match files[k].text {
                Err(e) => Err(Wrong { file: path, line: 0, msg: "cannot read: "@ + e }),
                Ok(src) => if unseen(seen.update(k, true)) < unseen(seen) {
                    lines_read(
                        files,
                        entry,
                        path,
                        text::lines(src, 0),
                        0,
                        Reading { table: t, cur: None, choice: None, menu: base },
                        base,
                        seen.update(k, true),
                    )
                } else {
                    Err(Wrong { file: path, line: 0, msg: seq![] })
                },
            }
        },
    }
}

/// What reading the lines from `i` on gives. What they `source` is found from the directory of
/// `entry`.
pub open spec fn lines_read(
    files: Seq<Doc>,
    entry: Seq<char>,
    path: Seq<char>,
    ls: Seq<Seq<char>>,
    i: int,
    r: Reading,
    base: Option<int>,
    seen: Seq<bool>,
) -> Outcome
    decreases unseen(seen), 1int, ls.len() - i,
{
    if i < 0 || i >= ls.len() {
        if r.choice is Some {
            Err(Wrong { file: path, line: ls.len() as int, msg: "`choice` without `endchoice`"@ })
        } else if r.menu != base {
            Err(Wrong { file: path, line: ls.len() as int, msg: "`menu` without `endmenu`"@ })
        } else {
            Ok((r.table, seen))
        }
    } else {
        let s = text::trimmed(ls[i]);
        let e = text::until_space(s, 0);
        let kw = s.subrange(0, e);
        let rest = s.subrange(e, s.len() as int);
        if s.len() == 0 || s[0] == '#' {
            lines_read(files, entry, path, ls, i + 1, r, base, seen)
        } else if kw == "source"@ {
            match file_read(files, entry, beside(entry, unquoted(text::trimmed(rest))), r.menu, r.table, seen) {
                Err(w) => Err(w),
                Ok((t2, seen2)) => if unseen(seen2) <= unseen(seen) {
                    lines_read(files, entry, path, ls, i + 1, Reading { table: t2, ..r }, base, seen2)
                } else {
                    Err(Wrong { file: path, line: i + 1, msg: seq![] })
                },
            }
        } else if kw == "help"@ {
            if r.cur is None {
                Err(Wrong { file: path, line: i + 1, msg: "`help` outside a block"@ })
            } else {
                let j = help_end(ls, i + 1, margin(ls[i], 0));
                let h = text::trimmed(help_lines(ls, i + 1, j));
                if i < j <= ls.len() {
                    lines_read(
                        files,
                        entry,
                        path,
                        ls,
                        j,
                        edit_cur(r, super::Sym { help: Some(h), ..r.table.symbols[r.cur->0] }),
                        base,
                        seen,
                    )
                } else {
                    Err(Wrong { file: path, line: i + 1, msg: seq![] })
                }
            }
        } else {
            match took(r, base, path, i + 1, kw, rest) {
                Ok(n) => lines_read(files, entry, path, ls, i + 1, n, base, seen),
                Err(m) => Err(Wrong { file: path, line: i + 1, msg: m }),
            }
        }
    }
}

/// Which files have been read before the first is.
pub open spec fn none_seen(n: nat) -> Seq<bool> {
    Seq::new(n, |i: int| false)
}

/// The table of the tree that starts at `entry`, or what is wrong with it.
pub open spec fn tree(files: Seq<Doc>, entry: Seq<char>) -> Result<super::Table, Wrong> {
    let empty = super::Table { symbols: seq![], choices: seq![], menus: seq![] };
    match file_read(files, entry, entry, None, empty, none_seen(files.len())) {
        Ok((t, _)) => Ok(t),
        Err(w) => Err(w),
    }
}

struct Cursor {
    cur: Option<usize>,
    choice: Option<String>,
    menu: Option<usize>,
}

spec fn reading(t: super::Table, c: Cursor) -> Reading {
    Reading { table: t, cur: super::opt_index(c.cur), choice: super::opt_text(c.choice), menu: super::opt_index(c.menu) }
}

spec fn sound(r: Reading) -> bool {
    &&& super::well_formed(r.table)
    &&& r.cur is Some ==> 0 <= r.cur->0 < r.table.symbols.len()
    &&& r.choice is Some ==> super::group_from(r.table.choices, r.choice->0, 0) is Some
    &&& super::menu_exists(r.table, r.menu)
}

/// Whether `b` still has every choice and at least as many symbols and menus as `a`.
spec fn grown(a: super::Table, b: super::Table) -> bool {
    &&& a.symbols.len() <= b.symbols.len()
    &&& a.menus.len() <= b.menus.len()
    &&& forall|n: Seq<char>| #[trigger]
        super::group_from(a.choices, n, 0) is Some ==> super::group_from(b.choices, n, 0) is Some
}

spec fn took_it(out: Result<(), String>, want: Result<Reading, Seq<char>>, before: Reading, after: Reading) -> bool {
    match out {
        Ok(_) => want == Ok::<Reading, Seq<char>>(after) && sound(after) && grown(before.table, after.table),
        Err(m) => want == Err::<Reading, Seq<char>>(m@),
    }
}

proof fn edit_grows(t: super::Table, c: int, g: super::Group)
    requires
        super::well_formed(t),
        0 <= c < t.choices.len(),
        g.name == t.choices[c].name,
    ensures
        grown(t, table::with_group(t, c, g)),
        super::group_from(table::with_group(t, c, g).choices, g.name, 0) is Some,
{
    let n = table::with_group(t, c, g);
    assert forall|m: Seq<char>| #[trigger] super::group_from(t.choices, m, 0) is Some implies super::group_from(
        n.choices,
        m,
        0,
    ) is Some by {
        same_groups_found(t.choices, n.choices, m, 0);
    }
    group_found(n.choices, g.name, c, 0);
}

proof fn same_groups_found(a: Seq<super::Group>, b: Seq<super::Group>, name: Seq<char>, i: int)
    requires
        a.len() == b.len(),
        forall|k: int| 0 <= k < a.len() ==> (#[trigger] a[k]).name == b[k].name,
        0 <= i,
    ensures
        super::group_from(a, name, i) == super::group_from(b, name, i),
    decreases a.len() - i,
{
    if i < a.len() {
        assert(a[i].name == b[i].name);
        same_groups_found(a, b, name, i + 1);
    }
}

proof fn group_found(a: Seq<super::Group>, name: Seq<char>, k: int, i: int)
    requires
        0 <= i <= k < a.len(),
        a[k].name == name,
    ensures
        super::group_from(a, name, i) is Some,
    decreases a.len() - i,
{
    if a[i].name != name {
        group_found(a, name, k, i + 1);
    }
}

proof fn group_named(a: Seq<super::Group>, name: Seq<char>, i: int)
    requires
        super::group_from(a, name, i) is Some,
    ensures
        0 <= super::group_from(a, name, i)->0 < a.len(),
        a[super::group_from(a, name, i)->0].name == name,
    decreases a.len() - i,
{
    if a[i].name != name {
        group_named(a, name, i + 1);
    }
}

/// The lookup of a choice that is known to be there.
fn open_index(table: &SymbolTable, name: &String) -> (r: usize)
    requires
        super::group_from(table@.choices, name@, 0) is Some,
    ensures
        Some(r as int) == super::group_from(table@.choices, name@, 0),
        r < table.choices@.len(),
{
    match table.choice_index(name.as_str()) {
        Some(c) => c,
        None => 0,
    }
}

proof fn sym_edit_sound(r: Reading, s: super::Sym)
    requires
        sound(r),
        r.cur is Some,
        s.name == r.table.symbols[r.cur->0].name,
        s.choice == r.table.symbols[r.cur->0].choice,
        s.menu == r.table.symbols[r.cur->0].menu,
        table::ranges_sound(s),
    ensures
        sound(edit_cur(r, s)),
        grown(r.table, edit_cur(r, s).table),
{
    table::sym_edit_keeps(r.table, r.cur->0, s);
}

proof fn choice_edit_sound(r: Reading, g: super::Group)
    requires
        sound(r),
        r.choice is Some,
        g.name == r.table.choices[open_choice(r)].name,
        g.members == r.table.choices[open_choice(r)].members,
        g.menu == r.table.choices[open_choice(r)].menu,
    ensures
        sound(edit_choice(r, g)),
        grown(r.table, edit_choice(r, g).table),
{
    group_named(r.table.choices, r.choice->0, 0);
    let c = open_choice(r);
    assert forall|m: int| 0 <= m < g.members.len() implies super::belongs(r.table, #[trigger] g.members[m], g.name) by {
        assert(super::belongs(r.table, r.table.choices[c].members[m], r.table.choices[c].name));
    }
    table::group_edit_keeps(r.table, c, g);
    edit_grows(r.table, c, g);
}

proof fn config_stays_sound(r: Reading, file: Seq<char>, line: int, rest: Seq<char>)
    requires
        sound(r),
        took_config(r, file, line, rest) is Ok,
    ensures
        sound(took_config(r, file, line, rest)->Ok_0),
        grown(r.table, took_config(r, file, line, rest)->Ok_0.table),
{
    let name = text::trimmed(rest);
    let after = took_config(r, file, line, rest)->Ok_0;
    let s = after.table.symbols[r.table.symbols.len() as int];
    let t1 = table::with_new_sym(r.table, s);
    assert(super::sym_sound(r.table, s));
    table::new_sym_keeps(r.table, s);
    if r.choice is Some {
        let k = open_choice(r);
        group_named(t1.choices, r.choice->0, 0);
        let g = t1.choices[k];
        let g2 = super::Group { members: g.members.push(name), ..g };
        assert forall|m: int| 0 <= m < g2.members.len() implies super::belongs(t1, #[trigger] g2.members[m], g2.name) by {
            if m < g.members.len() {
                assert(super::belongs(t1, t1.choices[k].members[m], t1.choices[k].name));
            }
        }
        table::group_edit_keeps(t1, k, g2);
        edit_grows(t1, k, g2);
    }
}

proof fn choice_stays_sound(r: Reading, file: Seq<char>, line: int, rest: Seq<char>)
    requires
        sound(r),
        took_choice(r, file, line, rest) is Ok,
    ensures
        sound(took_choice(r, file, line, rest)->Ok_0),
        grown(r.table, took_choice(r, file, line, rest)->Ok_0.table),
{
    let name = text::trimmed(rest);
    let after = took_choice(r, file, line, rest)->Ok_0.table;
    let p = table::slot(r.table.choices, name, 0);
    table::slot_in_range(r.table.choices, name);
    let g = after.choices[p];
    table::choice_keeps(r.table, g);
    assert forall|m: Seq<char>| #[trigger] super::group_from(r.table.choices, m, 0) is Some implies super::group_from(
        after.choices,
        m,
        0,
    ) is Some by {
        group_named(r.table.choices, m, 0);
        let k = super::group_from(r.table.choices, m, 0)->0;
        let replaced = p < r.table.choices.len() && r.table.choices[p].name == name;
        let q = if replaced || k < p {
            k
        } else {
            k + 1
        };
        assert(after.choices[q].name == m);
        group_found(after.choices, m, q, 0);
    }
}

fn take_config(table: &mut SymbolTable, at: &mut Cursor, file: &str, line: usize, rest: &[char]) -> (out: Result<
    (),
    String,
>)
    requires
        sound(reading(old(table)@, *old(at))),
    ensures
        took_it(
            out,
            took_config(reading(old(table)@, *old(at)), file@, line as int, rest@),
            reading(old(table)@, *old(at)),
            reading(final(table)@, *final(at)),
        ),
{
    let ghost r = reading(table@, *at);
    let name = text::string(text::trim(rest).as_slice());
    if name.as_str().is_empty() {
        return Err("`config` needs a name".to_owned());
    }
    if table.index_of(name.as_str()).is_some() {
        let mut m = "symbol `".to_owned();
        m.append(name.as_str());
        m.append("` is already defined");
        return Err(m);
    }
    let symbol = Symbol {
        name: name.clone(),
        kind: Kind::Bool,
        prompt: None,
        depends: None,
        defaults: Vec::new(),
        selects: Vec::new(),
        ranges: Vec::new(),
        help: None,
        readonly: false,
        choice: at.choice.clone(),
        menu: at.menu,
        origin: Origin { file: file.to_owned(), line },
    };
    let ghost s = symbol@;
    assert(s.defaults =~= seq![]);
    assert(s.selects =~= seq![]);
    assert(s.ranges =~= seq![]);
    assert(s.choice == r.choice);
    let place: usize = table.symbols.len();
    table.add_symbol(symbol);
    match &at.choice {
        Some(c) => {
            let k = open_index(table, c);
            proof {
                group_named(table@.choices, c@, 0);
            }
            table.add_member(k, name);
        },
        None => {},
    }
    proof {
        config_stays_sound(r, file@, line as int, rest@);
    }
    at.cur = Some(place);
    Ok(())
}

fn take_choice(table: &mut SymbolTable, at: &mut Cursor, file: &str, line: usize, rest: &[char]) -> (out: Result<
    (),
    String,
>)
    requires
        sound(reading(old(table)@, *old(at))),
    ensures
        took_it(
            out,
            took_choice(reading(old(table)@, *old(at)), file@, line as int, rest@),
            reading(old(table)@, *old(at)),
            reading(final(table)@, *final(at)),
        ),
{
    let ghost r = reading(table@, *at);
    let name = text::string(text::trim(rest).as_slice());
    if name.as_str().is_empty() {
        return Err("`choice` needs a name".to_owned());
    }
    let choice = Choice {
        name: name.clone(),
        prompt: None,
        members: Vec::new(),
        defaults: Vec::new(),
        depends: None,
        menu: at.menu,
        origin: Origin { file: file.to_owned(), line },
    };
    let ghost g = choice@;
    assert(g.members =~= seq![]);
    assert(g.defaults =~= seq![]);
    table.put_choice(choice);
    proof {
        choice_stays_sound(r, file@, line as int, rest@);
    }
    at.choice = Some(name);
    at.cur = None;
    Ok(())
}

fn take_endchoice(table: &SymbolTable, at: &mut Cursor) -> (out: Result<(), String>)
    requires
        sound(reading(table@, *old(at))),
    ensures
        took_it(
            out,
            took_endchoice(reading(table@, *old(at))),
            reading(table@, *old(at)),
            reading(table@, *final(at)),
        ),
{
    if at.choice.is_none() {
        return Err("`endchoice` without `choice`".to_owned());
    }
    at.choice = None;
    at.cur = None;
    Ok(())
}

fn take_menu(table: &mut SymbolTable, at: &mut Cursor, rest: &[char]) -> (out: Result<(), String>)
    requires
        sound(reading(old(table)@, *old(at))),
    ensures
        took_it(
            out,
            took_menu(reading(old(table)@, *old(at)), rest@),
            reading(old(table)@, *old(at)),
            reading(final(table)@, *final(at)),
        ),
{
    let ghost r = reading(table@, *at);
    let title = unquote(text::trim(rest).as_slice());
    if title.len() == 0 {
        return Err("`menu` needs a title".to_owned());
    }
    let menu = Menu { title: text::string(title.as_slice()), parent: at.menu };
    let place: usize = table.menus.len();
    proof {
        table::menu_keeps(r.table, menu@);
    }
    table.add_menu(menu);
    at.menu = Some(place);
    at.cur = None;
    Ok(())
}

fn take_endmenu(table: &SymbolTable, at: &mut Cursor, base: &Option<usize>) -> (out: Result<(), String>)
    requires
        sound(reading(table@, *old(at))),
    ensures
        took_it(
            out,
            took_endmenu(reading(table@, *old(at)), super::opt_index(*base)),
            reading(table@, *old(at)),
            reading(table@, *final(at)),
        ),
{
    let outer = match (at.menu, *base) {
        (None, _) => true,
        (Some(m), Some(b)) => m == b,
        (Some(_), None) => false,
    };
    if outer {
        return Err("`endmenu` without `menu`".to_owned());
    }
    match at.menu {
        Some(m) => {
            assert(table@.menus[m as int] == table.menus@[m as int]@);
            at.menu = table.menus[m].parent;
        },
        None => {},
    }
    at.cur = None;
    Ok(())
}

fn outside(kw: &str) -> (r: String)
    ensures
        r@ == "`"@ + kw@ + "` outside of a `config` block"@,
{
    let mut m = "`".to_owned();
    m.append(kw);
    m.append("` outside of a `config` block");
    m
}

fn take_kind(table: &mut SymbolTable, at: &Cursor, kw: &str, kind: Kind, rest: &[char]) -> (out: Result<(), String>)
    requires
        sound(reading(old(table)@, *at)),
    ensures
        took_it(
            out,
            took_kind(reading(old(table)@, *at), kw@, kind, rest@),
            reading(old(table)@, *at),
            reading(final(table)@, *at),
        ),
{
    let ghost r = reading(table@, *at);
    let i: usize = match at.cur {
        Some(i) => i,
        None => return Err(outside(kw)),
    };
    proof {
        assert(super::sym_sound(r.table, r.table.symbols[i as int]));
        sym_edit_sound(r, super::Sym { kind, ..r.table.symbols[i as int] });
    }
    table.set_kind(i, kind);
    let ghost r1 = reading(table@, *at);
    let p = text::trim(rest);
    if p.len() > 0 {
        let prompt = text::string(unquote(p.as_slice()).as_slice());
        proof {
            assert(super::sym_sound(r1.table, r1.table.symbols[i as int]));
            sym_edit_sound(r1, super::Sym { prompt: Some(prompt@), ..r1.table.symbols[i as int] });
        }
        table.set_prompt(i, prompt);
        assert(table@.symbols =~= took_kind(r, kw@, kind, rest@)->Ok_0.table.symbols);
    }
    Ok(())
}

fn take_prompt(table: &mut SymbolTable, at: &Cursor, rest: &[char]) -> (out: Result<(), String>)
    requires
        sound(reading(old(table)@, *at)),
    ensures
        took_it(
            out,
            took_prompt(reading(old(table)@, *at), rest@),
            reading(old(table)@, *at),
            reading(final(table)@, *at),
        ),
{
    let ghost r = reading(table@, *at);
    let p = text::string(unquote(text::trim(rest).as_slice()).as_slice());
    match (&at.cur, &at.choice) {
        (Some(i), _) => {
            proof {
                assert(super::sym_sound(r.table, r.table.symbols[*i as int]));
                sym_edit_sound(r, super::Sym { prompt: Some(p@), ..r.table.symbols[*i as int] });
            }
            table.set_prompt(*i, p);
            Ok(())
        },
        (None, Some(c)) => {
            let k = open_index(table, c);
            proof {
                choice_edit_sound(r, super::Group { prompt: Some(p@), ..r.table.choices[k as int] });
            }
            table.set_choice_prompt(k, p);
            Ok(())
        },
        (None, None) => Err("`prompt` outside a block".to_owned()),
    }
}

fn take_depends(table: &mut SymbolTable, at: &Cursor, rest: &[char]) -> (out: Result<(), String>)
    requires
        sound(reading(old(table)@, *at)),
    ensures
        took_it(
            out,
            took_depends(reading(old(table)@, *at), rest@),
            reading(old(table)@, *at),
            reading(final(table)@, *at),
        ),
{
    let ghost r = reading(table@, *at);
    let t = text::trim(rest);
    if !(t.len() >= 3 && t[0] == 'o' && t[1] == 'n' && t[2] == ' ') {
        return Err("expected `depends on <expression>`".to_owned());
    }
    let cond = text::string(slice_subrange(t.as_slice(), 3, t.len()));
    let e = match expr::parse(cond.as_str()) {
        Ok(e) => e,
        Err(m) => return Err(m),
    };
    match (&at.cur, &at.choice) {
        (Some(i), _) => {
            proof {
                assert(super::sym_sound(r.table, r.table.symbols[*i as int]));
                sym_edit_sound(r, super::Sym { depends: Some(e@), ..r.table.symbols[*i as int] });
            }
            table.set_depends(*i, e);
            Ok(())
        },
        (None, Some(c)) => {
            let k = open_index(table, c);
            proof {
                choice_edit_sound(r, super::Group { depends: Some(e@), ..r.table.choices[k as int] });
            }
            table.set_choice_depends(k, e);
            Ok(())
        },
        (None, None) => Err("`depends on` outside a block".to_owned()),
    }
}

fn parse_opt(c: &Option<Vec<char>>) -> (out: Result<Option<Expr>, String>)
    ensures
        match out {
            Ok(e) => opt_condition(
                match *c {
                    Some(v) => Some(v@),
                    None => None,
                },
            ) == Ok::<Option<expr::Cond>, Seq<char>>(super::opt_cond(e)),
            Err(m) => opt_condition(
                match *c {
                    Some(v) => Some(v@),
                    None => None,
                },
            ) == Err::<Option<expr::Cond>, Seq<char>>(m@),
        },
{
    match c {
        None => Ok(None),
        Some(v) => match expr::parse(text::string(v.as_slice()).as_str()) {
            Ok(e) => Ok(Some(e)),
            Err(m) => Err(m),
        },
    }
}

fn take_select(table: &mut SymbolTable, at: &Cursor, rest: &[char]) -> (out: Result<(), String>)
    requires
        sound(reading(old(table)@, *at)),
    ensures
        took_it(
            out,
            took_select(reading(old(table)@, *at), rest@),
            reading(old(table)@, *at),
            reading(final(table)@, *at),
        ),
{
    let ghost r = reading(table@, *at);
    let i: usize = match at.cur {
        Some(i) => i,
        None => return Err("`select` outside a `config` block".to_owned()),
    };
    let t = text::trim(rest);
    let (target, c) = split_if_chars(t.as_slice());
    let cond = match parse_opt(&c) {
        Ok(e) => e,
        Err(m) => return Err(m),
    };
    let sel = Select { target: text::string(target.as_slice()), cond };
    proof {
        let s = r.table.symbols[i as int];
        assert(super::sym_sound(r.table, s));
        sym_edit_sound(r, super::Sym { selects: s.selects.push(sel@), ..s });
    }
    table.add_select(i, sel);
    Ok(())
}

fn take_default(table: &mut SymbolTable, at: &Cursor, rest: &[char]) -> (out: Result<(), String>)
    requires
        sound(reading(old(table)@, *at)),
    ensures
        took_it(
            out,
            took_default(reading(old(table)@, *at), rest@),
            reading(old(table)@, *at),
            reading(final(table)@, *at),
        ),
{
    let ghost r = reading(table@, *at);
    let t = text::trim(rest);
    let (txt, c) = split_if_chars(t.as_slice());
    let cond = match parse_opt(&c) {
        Ok(e) => e,
        Err(m) => return Err(m),
    };
    match (&at.cur, &at.choice) {
        (Some(i), _) => {
            assert(r.table.symbols[*i as int] == table.symbols@[*i as int]@);
            let value = match parse_val(txt.as_slice(), table.symbols[*i].kind) {
                Ok(v) => v,
                Err(m) => return Err(m),
            };
            let d = super::Default { value, cond };
            proof {
                let s = r.table.symbols[*i as int];
                assert(super::sym_sound(r.table, s));
                sym_edit_sound(r, super::Sym { defaults: s.defaults.push(d@), ..s });
            }
            table.add_default(*i, d);
            Ok(())
        },
        (None, Some(c)) => {
            let k = open_index(table, c);
            let d = super::Default { value: Val::Str(text::string(text::trim(txt.as_slice()).as_slice())), cond };
            proof {
                let g = r.table.choices[k as int];
                choice_edit_sound(r, super::Group { defaults: g.defaults.push(d@), ..g });
            }
            table.add_choice_default(k, d);
            Ok(())
        },
        (None, None) => Err("`default` outside a block".to_owned()),
    }
}

fn parse_bound(s: &[char]) -> (r: Option<i128>)
    ensures
        match r {
            Some(v) => bound_of(s@) == Some(v as int) && i64::MIN <= v <= u64::MAX,
            None => bound_of(s@) is None,
        },
{
    if s.len() >= 2 && s[0] == '0' && s[1] == 'x' {
        match parse_hex(s) {
            Some(v) => Some(v as i128),
            None => None,
        }
    } else {
        match text::parse_i64(s, 10) {
            Some(v) => Some(v as i128),
            None => None,
        }
    }
}

fn take_range(table: &mut SymbolTable, at: &Cursor, rest: &[char]) -> (out: Result<(), String>)
    requires
        sound(reading(old(table)@, *at)),
    ensures
        took_it(
            out,
            took_range(reading(old(table)@, *at), rest@),
            reading(old(table)@, *at),
            reading(final(table)@, *at),
        ),
{
    let ghost r = reading(table@, *at);
    let i: usize = match at.cur {
        Some(i) => i,
        None => return Err("`range` outside a `config` block".to_owned()),
    };
    let t = text::trim(rest);
    let (bounds, c) = split_if_chars(t.as_slice());
    let parts = text::split_words(bounds.as_slice());
    let ghost w = text::char_views(parts@);
    if parts.len() != 2 {
        return Err("expected `range <low> <high>`".to_owned());
    }
    assert(w[0] == parts@[0]@ && w[1] == parts@[1]@);
    let lo: i128 = match parse_bound(parts[0].as_slice()) {
        Some(v) => v,
        None => return Err("bad range low".to_owned()),
    };
    let hi: i128 = match parse_bound(parts[1].as_slice()) {
        Some(v) => v,
        None => return Err("bad range high".to_owned()),
    };
    if lo > hi {
        let mut m = "range low ".to_owned();
        m.append(text::int_text(lo).as_str());
        m.append(" exceeds high ");
        m.append(text::int_text(hi).as_str());
        return Err(m);
    }
    let cond = match parse_opt(&c) {
        Ok(e) => e,
        Err(m) => return Err(m),
    };
    let range = Range { lo, hi, cond };
    proof {
        let s = r.table.symbols[i as int];
        assert(super::sym_sound(r.table, s));
        sym_edit_sound(r, super::Sym { ranges: s.ranges.push(range@), ..s });
    }
    table.add_range(i, range);
    Ok(())
}

fn take_readonly(table: &mut SymbolTable, at: &Cursor) -> (out: Result<(), String>)
    requires
        sound(reading(old(table)@, *at)),
    ensures
        took_it(
            out,
            took_readonly(reading(old(table)@, *at)),
            reading(old(table)@, *at),
            reading(final(table)@, *at),
        ),
{
    let ghost r = reading(table@, *at);
    let i: usize = match at.cur {
        Some(i) => i,
        None => return Err("`readonly` outside a `config` block".to_owned()),
    };
    proof {
        let s = r.table.symbols[i as int];
        assert(super::sym_sound(r.table, s));
        sym_edit_sound(r, super::Sym { readonly: true, ..s });
    }
    table.set_readonly(i);
    Ok(())
}

fn take_line(
    table: &mut SymbolTable,
    at: &mut Cursor,
    base: &Option<usize>,
    file: &str,
    line: usize,
    kw: &str,
    rest: &[char],
) -> (out: Result<(), String>)
    requires
        sound(reading(old(table)@, *old(at))),
    ensures
        took_it(
            out,
            took(reading(old(table)@, *old(at)), super::opt_index(*base), file@, line as int, kw@, rest@),
            reading(old(table)@, *old(at)),
            reading(final(table)@, *final(at)),
        ),
{
    if text::same(kw, "config") {
        take_config(table, at, file, line, rest)
    } else if text::same(kw, "choice") {
        take_choice(table, at, file, line, rest)
    } else if text::same(kw, "endchoice") {
        take_endchoice(table, at)
    } else if text::same(kw, "menu") {
        take_menu(table, at, rest)
    } else if text::same(kw, "endmenu") {
        take_endmenu(table, at, base)
    } else if text::same(kw, "bool") {
        take_kind(table, at, kw, Kind::Bool, rest)
    } else if text::same(kw, "tristate") {
        take_kind(table, at, kw, Kind::Tristate, rest)
    } else if text::same(kw, "int") {
        take_kind(table, at, kw, Kind::Int, rest)
    } else if text::same(kw, "hex") {
        take_kind(table, at, kw, Kind::Hex, rest)
    } else if text::same(kw, "string") {
        take_kind(table, at, kw, Kind::Str, rest)
    } else if text::same(kw, "prompt") {
        take_prompt(table, at, rest)
    } else if text::same(kw, "depends") {
        take_depends(table, at, rest)
    } else if text::same(kw, "select") {
        take_select(table, at, rest)
    } else if text::same(kw, "default") {
        take_default(table, at, rest)
    } else if text::same(kw, "range") {
        take_range(table, at, rest)
    } else if text::same(kw, "readonly") {
        take_readonly(table, at)
    } else {
        let mut m = "unknown keyword `".to_owned();
        m.append(kw);
        m.append("`");
        Err(m)
    }
}

proof fn seen_once_more(seen: Seq<bool>, k: int)
    requires
        0 <= k < seen.len(),
        !seen[k],
    ensures
        unseen(seen.update(k, true)) + 1 == unseen(seen),
    decreases seen.len(),
{
    let next = seen.update(k, true);
    if k == seen.len() - 1 {
        assert(next.drop_last() =~= seen.drop_last());
    } else {
        assert(next.drop_last() =~= seen.drop_last().update(k, true));
        seen_once_more(seen.drop_last(), k);
    }
}

spec fn read_it(
    out: Result<(), ParseError>,
    want: Outcome,
    before: super::Table,
    after: super::Table,
    seen_before: Seq<bool>,
    seen_after: Seq<bool>,
) -> bool {
    match out {
        Ok(_) => want == Ok::<(super::Table, Seq<bool>), Wrong>((after, seen_after)) && super::well_formed(after)
            && grown(before, after) && seen_after.len() == seen_before.len() && unseen(seen_after) <= unseen(
            seen_before,
        ),
        Err(e) => want == Err::<(super::Table, Seq<bool>), Wrong>(e@),
    }
}

fn find_doc(files: &Vec<SourceFile>, path: &str) -> (r: Option<usize>)
    ensures
        super::opt_index(r) == doc_from(docs(files@), path@, 0),
        r is Some ==> r->0 < files@.len(),
{
    let wanted = path.to_owned();
    let mut i: usize = 0;
    while i < files.len()
        invariant
            i <= files@.len(),
            wanted@ == path@,
            doc_from(docs(files@), path@, 0) == doc_from(docs(files@), path@, i as int),
        decreases files@.len() - i,
    {
        assert(docs(files@)[i as int] == files@[i as int]@);
        if files[i].path == wanted {
            return Some(i);
        }
        i += 1;
    }
    None
}

fn take_help(ls: &Vec<Vec<char>>, i: usize, indent: u128) -> (r: (String, usize))
    requires
        i <= ls@.len(),
    ensures
        i <= r.1 <= ls@.len(),
        r.1 == help_end(text::char_views(ls@), i as int, indent as int),
        r.0@ == text::trimmed(help_lines(text::char_views(ls@), i as int, r.1 as int)),
{
    let ghost v = text::char_views(ls@);
    let mut h = String::new();
    let mut j: usize = i;
    assert(h@ =~= help_lines(v, i as int, j as int));
    while j < ls.len() && (text::trim(ls[j].as_slice()).len() == 0 || indent_of(ls[j].as_slice()) > indent)
        invariant
            i <= j <= ls@.len(),
            v == text::char_views(ls@),
            help_end(v, i as int, indent as int) == help_end(v, j as int, indent as int),
            h@ == help_lines(v, i as int, j as int),
        decreases ls@.len() - j,
    {
        assert(v[j as int] == ls@[j as int]@);
        let l = text::string(text::trim(ls[j].as_slice()).as_slice());
        h.append(l.as_str());
        h.append("\n");
        j += 1;
    }
    proof {
        if j < ls@.len() {
            assert(v[j as int] == ls@[j as int]@);
        }
    }
    let c = text::chars(h.as_str());
    (text::string(text::trim(c.as_slice()).as_slice()), j)
}

fn parse_file(
    files: &Vec<SourceFile>,
    entry: &str,
    path: &str,
    base: Option<usize>,
    table: &mut SymbolTable,
    seen: &mut Vec<bool>,
) -> (out: Result<(), ParseError>)
    requires
        super::well_formed(old(table)@),
        super::menu_exists(old(table)@, super::opt_index(base)),
        old(seen)@.len() == files@.len(),
    ensures
        read_it(
            out,
            file_read(docs(files@), entry@, path@, super::opt_index(base), old(table)@, old(seen)@),
            old(table)@,
            final(table)@,
            old(seen)@,
            final(seen)@,
        ),
    decreases unseen(old(seen)@), 0int,
{
    let ghost d = docs(files@);
    let k: usize = match find_doc(files, path) {
        Some(k) => k,
        None => {
            return Err(ParseError { file: path.to_owned(), line: 0, msg: "cannot read: no such file".to_owned() });
        },
    };
    assert(d[k as int] == files@[k as int]@);
    if seen[k] {
        return Ok(());
    }
    let src = match &files[k].text {
        Ok(s) => s,
        Err(e) => {
            let mut m = "cannot read: ".to_owned();
            m.append(e.as_str());
            return Err(ParseError { file: path.to_owned(), line: 0, msg: m });
        },
    };
    proof {
        seen_once_more(seen@, k as int);
    }
    seen.set(k, true);
    let c = text::chars(src.as_str());
    let ls = text::split_lines(c.as_slice());
    let at = Cursor { cur: None, choice: None, menu: base };
    let out = parse_lines(files, entry, path, &ls, at, base, table, seen);
    out
}

fn parse_lines(
    files: &Vec<SourceFile>,
    entry: &str,
    path: &str,
    ls: &Vec<Vec<char>>,
    start: Cursor,
    base: Option<usize>,
    table: &mut SymbolTable,
    seen: &mut Vec<bool>,
) -> (out: Result<(), ParseError>)
    requires
        sound(reading(old(table)@, start)),
        old(seen)@.len() == files@.len(),
    ensures
        read_it(
            out,
            lines_read(
                docs(files@),
                entry@,
                path@,
                text::char_views(ls@),
                0,
                reading(old(table)@, start),
                super::opt_index(base),
                old(seen)@,
            ),
            old(table)@,
            final(table)@,
            old(seen)@,
            final(seen)@,
        ),
    decreases unseen(old(seen)@), 1int,
{
    let ghost d = docs(files@);
    let ghost v = text::char_views(ls@);
    let ghost b = super::opt_index(base);
    let ghost want = lines_read(d, entry@, path@, v, 0, reading(table@, start), b, seen@);
    let mut at = start;
    let mut i: usize = 0;
    while i < ls.len()
        invariant
            i <= ls@.len(),
            d == docs(files@),
            v == text::char_views(ls@),
            b == super::opt_index(base),
            sound(reading(table@, at)),
            grown(old(table)@, table@),
            seen@.len() == files@.len(),
            old(seen)@.len() == files@.len(),
            unseen(seen@) <= unseen(old(seen)@),
            want == lines_read(d, entry@, path@, v, i as int, reading(table@, at), b, seen@),
            want == lines_read(d, entry@, path@, v, 0, reading(old(table)@, start), b, old(seen)@),
        decreases ls@.len() - i,
    {
        assert(v[i as int] == ls@[i as int]@);
        let raw = ls[i].as_slice();
        let s = text::trim(raw);
        let ghost r = reading(table@, at);
        if s.len() == 0 || s[0] == '#' {
            i += 1;
            continue;
        }
        let e: usize = text::find_space(s.as_slice(), 0);
        let kw = text::string(slice_subrange(s.as_slice(), 0, e));
        let rest = slice_subrange(s.as_slice(), e, s.len());
        if text::same(kw.as_str(), "source") {
            let t = text::trim(rest);
            let target = unquote(t.as_slice());
            let inner = path_beside(entry, target.as_slice());
            match parse_file(files, entry, inner.as_str(), at.menu, table, seen) {
                Ok(()) => {},
                Err(e) => return Err(e),
            }
            i += 1;
        } else if text::same(kw.as_str(), "help") {
            let cur: usize = match at.cur {
                Some(x) => x,
                None => {
                    return Err(
                        ParseError { file: path.to_owned(), line: i + 1, msg: "`help` outside a block".to_owned() },
                    );
                },
            };
            let (h, j) = take_help(ls, i + 1, indent_of(raw));
            proof {
                let sym = r.table.symbols[cur as int];
                assert(super::sym_sound(r.table, sym));
                sym_edit_sound(r, super::Sym { help: Some(h@), ..sym });
            }
            table.set_help(cur, h);
            i = j;
        } else {
            match take_line(table, &mut at, &base, path, i + 1, kw.as_str(), rest) {
                Ok(()) => {},
                Err(m) => return Err(ParseError { file: path.to_owned(), line: i + 1, msg: m }),
            }
            i += 1;
        }
    }
    if at.choice.is_some() {
        return Err(
            ParseError { file: path.to_owned(), line: ls.len(), msg: "`choice` without `endchoice`".to_owned() },
        );
    }
    let closed = match (at.menu, base) {
        (None, None) => true,
        (Some(m), Some(n)) => m == n,
        _ => false,
    };
    if !closed {
        return Err(ParseError { file: path.to_owned(), line: ls.len(), msg: "`menu` without `endmenu`".to_owned() });
    }
    Ok(())
}

/// Parse the file at `entry` and everything it `source`s, relative to `entry`'s directory. `files`
/// holds every file of the tree.
pub fn parse_tree(files: &Vec<SourceFile>, entry: &str) -> (r: Result<SymbolTable, ParseError>)
    ensures
        match r {
            Ok(t) => tree(docs(files@), entry@) == Ok::<super::Table, Wrong>(t@) && super::well_formed(t@),
            Err(e) => tree(docs(files@), entry@) == Err::<super::Table, Wrong>(e@),
        },
{
    let mut table = SymbolTable::new();
    let mut seen: Vec<bool> = Vec::new();
    let mut i: usize = 0;
    while i < files.len()
        invariant
            i <= files@.len(),
            seen@ =~= none_seen(i as nat),
        decreases files@.len() - i,
    {
        seen.push(false);
        i += 1;
    }
    match parse_file(files, entry, entry, None, &mut table, &mut seen) {
        Ok(()) => Ok(table),
        Err(e) => Err(e),
    }
}

/// Whether the symbols of `a` are the first of `b`, unchanged and in order.
pub open spec fn symbols_kept(a: super::Table, b: super::Table) -> bool {
    &&& a.symbols.len() <= b.symbols.len()
    &&& forall|i: int| 0 <= i < a.symbols.len() ==> b.symbols[i] == #[trigger] a.symbols[i]
}

/// Whether what is being read leaves the symbols of `a` alone: the open symbol is a later one.
spec fn beyond(a: super::Table, r: Reading) -> bool {
    &&& symbols_kept(a, r.table)
    &&& r.cur is Some ==> a.symbols.len() <= r.cur->0 < r.table.symbols.len()
}

proof fn taking_keeps_symbols(
    a: super::Table,
    r: Reading,
    base: Option<int>,
    file: Seq<char>,
    line: int,
    kw: Seq<char>,
    rest: Seq<char>,
)
    requires
        beyond(a, r),
        took(r, base, file, line, kw, rest) is Ok,
    ensures
        beyond(a, took(r, base, file, line, kw, rest)->Ok_0),
{
}

proof fn lines_keep_symbols(
    a: super::Table,
    files: Seq<Doc>,
    entry: Seq<char>,
    path: Seq<char>,
    ls: Seq<Seq<char>>,
    i: int,
    r: Reading,
    base: Option<int>,
    seen: Seq<bool>,
)
    requires
        beyond(a, r),
        lines_read(files, entry, path, ls, i, r, base, seen) is Ok,
    ensures
        symbols_kept(a, lines_read(files, entry, path, ls, i, r, base, seen)->Ok_0.0),
    decreases unseen(seen), 1int, ls.len() - i,
{
    if 0 <= i < ls.len() {
        let s = text::trimmed(ls[i]);
        let e = text::until_space(s, 0);
        let kw = s.subrange(0, e);
        let rest = s.subrange(e, s.len() as int);
        if s.len() == 0 || s[0] == '#' {
            lines_keep_symbols(a, files, entry, path, ls, i + 1, r, base, seen);
        } else if kw == "source"@ {
            let inner = beside(entry, unquoted(text::trimmed(rest)));
            let (t2, seen2) = file_read(files, entry, inner, r.menu, r.table, seen)->Ok_0;
            reading_keeps_symbols(files, entry, inner, r.menu, r.table, seen);
            let next = Reading { table: t2, ..r };
            assert forall|k: int| 0 <= k < a.symbols.len() implies t2.symbols[k] == #[trigger] a.symbols[k] by {
                assert(r.table.symbols[k] == a.symbols[k]);
            }
            lines_keep_symbols(a, files, entry, path, ls, i + 1, next, base, seen2);
        } else if kw == "help"@ {
            let j = help_end(ls, i + 1, margin(ls[i], 0));
            let h = text::trimmed(help_lines(ls, i + 1, j));
            let next = edit_cur(r, super::Sym { help: Some(h), ..r.table.symbols[r.cur->0] });
            lines_keep_symbols(a, files, entry, path, ls, j, next, base, seen);
        } else {
            taking_keeps_symbols(a, r, base, path, i + 1, kw, rest);
            lines_keep_symbols(a, files, entry, path, ls, i + 1, took(r, base, path, i + 1, kw, rest)->Ok_0, base, seen);
        }
    }
}

/// Reading a file only adds symbols: those already in the table stay, unchanged and in order.
pub proof fn reading_keeps_symbols(
    files: Seq<Doc>,
    entry: Seq<char>,
    path: Seq<char>,
    base: Option<int>,
    t: super::Table,
    seen: Seq<bool>,
)
    requires
        file_read(files, entry, path, base, t, seen) is Ok,
    ensures
        symbols_kept(t, file_read(files, entry, path, base, t, seen)->Ok_0.0),
    decreases unseen(seen), 0int, 0int,
{
    let k = doc_from(files, path, 0)->0;
    if !seen[k] {
        lines_keep_symbols(
            t,
            files,
            entry,
            path,
            text::lines(files[k].text->Ok_0, 0),
            0,
            Reading { table: t, cur: None, choice: None, menu: base },
            base,
            seen.update(k, true),
        );
    }
}

proof fn edits_stay_sound(r: Reading, base: Option<int>, file: Seq<char>, line: int, kw: Seq<char>, rest: Seq<char>)
    requires
        sound(r),
        took(r, base, file, line, kw, rest) is Ok,
        kw != "config"@,
        kw != "choice"@,
        kw != "menu"@,
        kw != "endchoice"@,
        kw != "endmenu"@,
    ensures
        sound(took(r, base, file, line, kw, rest)->Ok_0),
        grown(r.table, took(r, base, file, line, kw, rest)->Ok_0.table),
{
    let after = took(r, base, file, line, kw, rest)->Ok_0;
    if r.cur is Some {
        let i = r.cur->0;
        assert(super::sym_sound(r.table, r.table.symbols[i]));
        let s = after.table.symbols[i];
        assert(after == edit_cur(r, s));
        sym_edit_sound(r, s);
    } else {
        let k = open_choice(r);
        group_named(r.table.choices, r.choice->0, 0);
        let g = after.table.choices[k];
        assert(after == edit_choice(r, g));
        choice_edit_sound(r, g);
    }
}

proof fn taking_stays_sound(r: Reading, base: Option<int>, file: Seq<char>, line: int, kw: Seq<char>, rest: Seq<char>)
    requires
        sound(r),
        took(r, base, file, line, kw, rest) is Ok,
    ensures
        sound(took(r, base, file, line, kw, rest)->Ok_0),
        grown(r.table, took(r, base, file, line, kw, rest)->Ok_0.table),
{
    if kw == "config"@ {
        config_stays_sound(r, file, line, rest);
    } else if kw == "choice"@ {
        choice_stays_sound(r, file, line, rest);
    } else if kw == "menu"@ {
        table::menu_keeps(r.table, super::Page { title: unquoted(text::trimmed(rest)), parent: r.menu });
    } else if kw != "endchoice"@ && kw != "endmenu"@ {
        edits_stay_sound(r, base, file, line, kw, rest);
    }
}

proof fn lines_stay_sound(
    files: Seq<Doc>,
    entry: Seq<char>,
    path: Seq<char>,
    ls: Seq<Seq<char>>,
    i: int,
    r: Reading,
    base: Option<int>,
    seen: Seq<bool>,
)
    requires
        sound(r),
        lines_read(files, entry, path, ls, i, r, base, seen) is Ok,
    ensures
        super::well_formed(lines_read(files, entry, path, ls, i, r, base, seen)->Ok_0.0),
        grown(r.table, lines_read(files, entry, path, ls, i, r, base, seen)->Ok_0.0),
    decreases unseen(seen), 1int, ls.len() - i,
{
    if 0 <= i < ls.len() {
        let s = text::trimmed(ls[i]);
        let e = text::until_space(s, 0);
        let kw = s.subrange(0, e);
        let rest = s.subrange(e, s.len() as int);
        if s.len() == 0 || s[0] == '#' {
            lines_stay_sound(files, entry, path, ls, i + 1, r, base, seen);
        } else if kw == "source"@ {
            let inner = beside(entry, unquoted(text::trimmed(rest)));
            let (t2, seen2) = file_read(files, entry, inner, r.menu, r.table, seen)->Ok_0;
            file_stays_sound(files, entry, inner, r.menu, r.table, seen);
            lines_stay_sound(files, entry, path, ls, i + 1, Reading { table: t2, ..r }, base, seen2);
        } else if kw == "help"@ {
            let j = help_end(ls, i + 1, margin(ls[i], 0));
            let h = text::trimmed(help_lines(ls, i + 1, j));
            let sym = r.table.symbols[r.cur->0];
            assert(super::sym_sound(r.table, sym));
            sym_edit_sound(r, super::Sym { help: Some(h), ..sym });
            lines_stay_sound(files, entry, path, ls, j, edit_cur(r, super::Sym { help: Some(h), ..sym }), base, seen);
        } else {
            taking_stays_sound(r, base, path, i + 1, kw, rest);
            lines_stay_sound(files, entry, path, ls, i + 1, took(r, base, path, i + 1, kw, rest)->Ok_0, base, seen);
        }
    }
}

proof fn file_stays_sound(
    files: Seq<Doc>,
    entry: Seq<char>,
    path: Seq<char>,
    base: Option<int>,
    t: super::Table,
    seen: Seq<bool>,
)
    requires
        super::well_formed(t),
        super::menu_exists(t, base),
        file_read(files, entry, path, base, t, seen) is Ok,
    ensures
        super::well_formed(file_read(files, entry, path, base, t, seen)->Ok_0.0),
        grown(t, file_read(files, entry, path, base, t, seen)->Ok_0.0),
    decreases unseen(seen), 0int, 0int,
{
    let k = doc_from(files, path, 0)->0;
    if !seen[k] {
        lines_stay_sound(
            files,
            entry,
            path,
            text::lines(files[k].text->Ok_0, 0),
            0,
            Reading { table: t, cur: None, choice: None, menu: base },
            base,
            seen.update(k, true),
        );
    }
}

/// Reading a file keeps a table well formed: no symbol is there twice, the members of a choice are
/// symbols that belong to it, and no range is empty.
pub proof fn reading_keeps_tables_well_formed(
    files: Seq<Doc>,
    entry: Seq<char>,
    path: Seq<char>,
    base: Option<int>,
    t: super::Table,
    seen: Seq<bool>,
)
    requires
        super::well_formed(t),
        super::menu_exists(t, base),
        file_read(files, entry, path, base, t, seen) is Ok,
    ensures
        super::well_formed(file_read(files, entry, path, base, t, seen)->Ok_0.0),
{
    file_stays_sound(files, entry, path, base, t, seen);
}

/// The files that the first `n` lines name behind `source`, in the tree that starts at `entry`.
pub open spec fn sourced(entry: Seq<char>, ls: Seq<Seq<char>>, n: nat) -> Seq<Seq<char>>
    decreases n,
{
    if n == 0 {
        seq![]
    } else {
        let s = text::trimmed(ls[n - 1]);
        let e = text::until_space(s, 0);
        let before = sourced(entry, ls, (n - 1) as nat);
        if s.subrange(0, e) == "source"@ {
            before.push(beside(entry, unquoted(text::trimmed(s.subrange(e, s.len() as int)))))
        } else {
            before
        }
    }
}

/// Every file that a line of `src`, the text of a file in the tree that starts at `entry`, names
/// behind `source`: what has to be at hand to parse it.
pub fn sources(entry: &str, src: &str) -> (r: Vec<String>)
    ensures
        text::views(r@) == sourced(entry@, text::lines(src@, 0), text::lines(src@, 0).len()),
{
    let c = text::chars(src);
    let ls = text::split_lines(c.as_slice());
    let ghost v = text::char_views(ls@);
    let mut r: Vec<String> = Vec::new();
    let mut i: usize = 0;
    assert(text::views(r@) =~= seq![]);
    while i < ls.len()
        invariant
            i <= ls@.len(),
            v == text::char_views(ls@),
            text::views(r@) == sourced(entry@, v, i as nat),
        decreases ls@.len() - i,
    {
        assert(v[i as int] == ls@[i as int]@);
        let ghost before = text::views(r@);
        let s = text::trim(ls[i].as_slice());
        let e: usize = text::find_space(s.as_slice(), 0);
        let kw = text::string(slice_subrange(s.as_slice(), 0, e));
        if text::same(kw.as_str(), "source") {
            let t = text::trim(slice_subrange(s.as_slice(), e, s.len()));
            let target = unquote(t.as_slice());
            let p = path_beside(entry, target.as_slice());
            let ghost view = p@;
            r.push(p);
            assert(text::views(r@) =~= before.push(view));
        }
        i += 1;
    }
    r
}

} // verus!
