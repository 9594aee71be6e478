//! What each line of a configuration file adds to what was read before it, said of the text of the
//! line.

use vstd::prelude::*;
use vstd::string::*;

use super::expr;
use super::parse;
use super::parse::Reading;
use super::Kind;
use crate::text;

verus! {

/// Whether `s` has no white space at its ends, and is not empty.
pub open spec fn is_neat(s: Seq<char>) -> bool {
    s.len() > 0 && !text::space(s[0]) && !text::space(s.last())
}

/// Whether `s` holds no white space, is not empty, and is not the word `if`.
pub open spec fn is_one_word(s: Seq<char>) -> bool {
    &&& s.len() > 0
    &&& forall|i: int| 0 <= i < s.len() ==> !text::space(#[trigger] s[i])
    &&& s != seq!['i', 'f']
}

/// Whether `s` holds white space and nothing else.
pub open spec fn is_blank(s: Seq<char>) -> bool {
    forall|i: int| 0 <= i < s.len() ==> text::space(#[trigger] s[i])
}

/// `value if condition`, as a clause is written.
pub open spec fn guarded(value: Seq<char>, condition: Seq<char>) -> Seq<char> {
    value + seq![' ', 'i', 'f', ' '] + condition
}

proof fn past_blank(s: Seq<char>, i: int, n: int)
    requires
        0 <= i <= n <= s.len(),
        forall|j: int| i <= j < n ==> text::space(#[trigger] s[j]),
        n < s.len() ==> !text::space(s[n]),
    ensures
        text::past_space(s, i) == n,
    decreases n - i,
{
    if i < n {
        assert(text::space(s[i]));
        past_blank(s, i + 1, n);
    }
}

proof fn before_blank(s: Seq<char>, i: int, n: int)
    requires
        0 <= n <= i <= s.len(),
        forall|j: int| n <= j < i ==> text::space(#[trigger] s[j]),
        n > 0 ==> !text::space(s[n - 1]),
    ensures
        text::before_space(s, i) == n,
    decreases i - n,
{
    if n < i {
        assert(text::space(s[i - 1]));
        before_blank(s, i - 1, n);
    }
}

/// White space at either end does not count: what is left of `a`, `x` and `b` is `x`.
pub proof fn blanks_are_trimmed(a: Seq<char>, x: Seq<char>, b: Seq<char>)
    requires
        is_blank(a),
        is_blank(b),
        is_neat(x),
    ensures
        text::trimmed(a + x + b) == x,
{
    let s = a + x + b;
    assert forall|j: int| 0 <= j < a.len() implies text::space(#[trigger] s[j]) by {
        assert(s[j] == a[j]);
    }
    assert(s[a.len() as int] == x[0]);
    past_blank(s, 0, a.len() as int);
    let y = text::trim_start(s);
    assert(y =~= x + b);
    assert forall|j: int| x.len() <= j < y.len() implies text::space(#[trigger] y[j]) by {
        assert(y[j] == b[j - x.len()]);
    }
    assert(y[x.len() - 1] == x.last());
    before_blank(y, y.len() as int, x.len() as int);
    assert(text::trim_end(y) =~= x);
}

proof fn neat_stays(x: Seq<char>)
    requires
        is_neat(x),
    ensures
        text::trimmed(x) == x,
        text::trimmed(seq![' '] + x) == x,
        text::trimmed(x + seq![' ']) == x,
{
    let none = Seq::<char>::empty();
    let one = seq![' '];
    blanks_are_trimmed(none, x, none);
    blanks_are_trimmed(one, x, none);
    blanks_are_trimmed(none, x, one);
    assert(none + x + none =~= x);
    assert(one + x + none =~= one + x);
    assert(none + x + one =~= x + one);
}

/// Whether `if` stands nowhere in `s` as a word.
spec fn free_of_if(s: Seq<char>) -> bool {
    forall|p: int| !#[trigger] parse::if_at(s, p)
}

proof fn words_are_free_of_if(s: Seq<char>)
    requires
        is_one_word(s),
    ensures
        free_of_if(s),
{
    assert forall|p: int| !#[trigger] parse::if_at(s, p) by {
        if parse::if_at(s, p) {
            if p == 0 && s.len() == 2 {
                assert(s =~= seq!['i', 'f']);
            } else if p == 0 {
                assert(!text::space(s[2]));
            } else {
                assert(!text::space(s[p - 1]));
            }
        }
    }
}

proof fn pairs_are_free_of_if(a: Seq<char>, b: Seq<char>)
    requires
        is_one_word(a),
        is_one_word(b),
    ensures
        free_of_if(a + seq![' '] + b),
{
    words_are_free_of_if(a);
    words_are_free_of_if(b);
    let s = a + seq![' '] + b;
    let n = a.len() as int;
    assert forall|p: int| !#[trigger] parse::if_at(s, p) by {
        if parse::if_at(s, p) {
            if p + 2 <= n {
                assert(s[p] == a[p] && s[p + 1] == a[p + 1]);
                if p > 0 {
                    assert(s[p - 1] == a[p - 1]);
                }
                if p + 2 < n {
                    assert(s[p + 2] == a[p + 2]);
                }
                assert(parse::if_at(a, p));
            } else if p <= n {
                assert(s[n] == ' ');
            } else {
                let q = p - n - 1;
                assert(s[p] == b[q] && s[p + 1] == b[q + 1]);
                if q > 0 {
                    assert(s[p - 1] == b[q - 1]);
                }
                if q + 2 < b.len() {
                    assert(s[p + 2] == b[q + 2]);
                }
                assert(parse::if_at(b, q));
            }
        }
    }
}

proof fn if_is_found(s: Seq<char>, n: int, i: int)
    requires
        0 <= i <= n <= s.len(),
        forall|p: int| i <= p < n ==> !#[trigger] parse::if_at(s, p),
        n < s.len() ==> parse::if_at(s, n),
    ensures
        parse::find_if(s, i) == n,
    decreases n - i,
{
    if i < n {
        assert(!parse::if_at(s, i));
        if_is_found(s, n, i + 1);
    }
}

/// A clause falls into its value and its condition: both come out as they were written.
proof fn clauses_fall_apart(value: Seq<char>, condition: Seq<char>)
    requires
        is_neat(value),
        free_of_if(value),
        is_neat(condition),
    ensures
        parse::halves(text::trimmed(seq![' '] + guarded(value, condition))) == (value, Some(condition)),
        parse::halves(text::trimmed(seq![' '] + value)) == (value, None::<Seq<char>>),
{
    let s = guarded(value, condition);
    let n = value.len() as int;
    neat_stays(value);
    neat_stays(condition);
    assert(s[0] == value[0]);
    assert(s.last() == condition.last());
    neat_stays(s);
    assert forall|p: int| 0 <= p < n + 1 implies !#[trigger] parse::if_at(s, p) by {
        if parse::if_at(s, p) {
            if p + 2 <= n {
                assert(s[p] == value[p] && s[p + 1] == value[p + 1]);
                if p > 0 {
                    assert(s[p - 1] == value[p - 1]);
                }
                if p + 2 < n {
                    assert(s[p + 2] == value[p + 2]);
                }
                assert(parse::if_at(value, p));
            } else {
                assert(s[n] == ' ');
            }
        }
    }
    assert(s[n] == ' ' && s[n + 1] == 'i' && s[n + 2] == 'f' && s[n + 3] == ' ');
    assert(parse::if_at(s, n + 1));
    if_is_found(s, n + 1, 0);
    assert(s.subrange(0, n + 1) =~= value + seq![' ']);
    assert(s.subrange(n + 3, s.len() as int) =~= seq![' '] + condition);
    if_is_found(value, n, 0);
}

/// Which keyword stands at the head of a line is never in doubt: no two are the same text.
proof fn keywords_differ()
    ensures
        "config"@ != "choice"@,
        "config"@ != "endchoice"@,
        "config"@ != "menu"@,
        "config"@ != "endmenu"@,
        "config"@ != "bool"@,
        "config"@ != "tristate"@,
        "config"@ != "int"@,
        "config"@ != "hex"@,
        "config"@ != "string"@,
        "config"@ != "prompt"@,
        "config"@ != "depends"@,
        "config"@ != "select"@,
        "config"@ != "default"@,
        "config"@ != "range"@,
        "config"@ != "readonly"@,
        "config"@ != "source"@,
        "config"@ != "help"@,
        "choice"@ != "endchoice"@,
        "choice"@ != "menu"@,
        "choice"@ != "endmenu"@,
        "choice"@ != "bool"@,
        "choice"@ != "tristate"@,
        "choice"@ != "int"@,
        "choice"@ != "hex"@,
        "choice"@ != "string"@,
        "choice"@ != "prompt"@,
        "choice"@ != "depends"@,
        "choice"@ != "select"@,
        "choice"@ != "default"@,
        "choice"@ != "range"@,
        "choice"@ != "readonly"@,
        "choice"@ != "source"@,
        "choice"@ != "help"@,
        "endchoice"@ != "menu"@,
        "endchoice"@ != "endmenu"@,
        "endchoice"@ != "bool"@,
        "endchoice"@ != "tristate"@,
        "endchoice"@ != "int"@,
        "endchoice"@ != "hex"@,
        "endchoice"@ != "string"@,
        "endchoice"@ != "prompt"@,
        "endchoice"@ != "depends"@,
        "endchoice"@ != "select"@,
        "endchoice"@ != "default"@,
        "endchoice"@ != "range"@,
        "endchoice"@ != "readonly"@,
        "endchoice"@ != "source"@,
        "endchoice"@ != "help"@,
        "menu"@ != "endmenu"@,
        "menu"@ != "bool"@,
        "menu"@ != "tristate"@,
        "menu"@ != "int"@,
        "menu"@ != "hex"@,
        "menu"@ != "string"@,
        "menu"@ != "prompt"@,
        "menu"@ != "depends"@,
        "menu"@ != "select"@,
        "menu"@ != "default"@,
        "menu"@ != "range"@,
        "menu"@ != "readonly"@,
        "menu"@ != "source"@,
        "menu"@ != "help"@,
        "endmenu"@ != "bool"@,
        "endmenu"@ != "tristate"@,
        "endmenu"@ != "int"@,
        "endmenu"@ != "hex"@,
        "endmenu"@ != "string"@,
        "endmenu"@ != "prompt"@,
        "endmenu"@ != "depends"@,
        "endmenu"@ != "select"@,
        "endmenu"@ != "default"@,
        "endmenu"@ != "range"@,
        "endmenu"@ != "readonly"@,
        "endmenu"@ != "source"@,
        "endmenu"@ != "help"@,
        "bool"@ != "tristate"@,
        "bool"@ != "int"@,
        "bool"@ != "hex"@,
        "bool"@ != "string"@,
        "bool"@ != "prompt"@,
        "bool"@ != "depends"@,
        "bool"@ != "select"@,
        "bool"@ != "default"@,
        "bool"@ != "range"@,
        "bool"@ != "readonly"@,
        "bool"@ != "source"@,
        "bool"@ != "help"@,
        "tristate"@ != "int"@,
        "tristate"@ != "hex"@,
        "tristate"@ != "string"@,
        "tristate"@ != "prompt"@,
        "tristate"@ != "depends"@,
        "tristate"@ != "select"@,
        "tristate"@ != "default"@,
        "tristate"@ != "range"@,
        "tristate"@ != "readonly"@,
        "tristate"@ != "source"@,
        "tristate"@ != "help"@,
        "int"@ != "hex"@,
        "int"@ != "string"@,
        "int"@ != "prompt"@,
        "int"@ != "depends"@,
        "int"@ != "select"@,
        "int"@ != "default"@,
        "int"@ != "range"@,
        "int"@ != "readonly"@,
        "int"@ != "source"@,
        "int"@ != "help"@,
        "hex"@ != "string"@,
        "hex"@ != "prompt"@,
        "hex"@ != "depends"@,
        "hex"@ != "select"@,
        "hex"@ != "default"@,
        "hex"@ != "range"@,
        "hex"@ != "readonly"@,
        "hex"@ != "source"@,
        "hex"@ != "help"@,
        "string"@ != "prompt"@,
        "string"@ != "depends"@,
        "string"@ != "select"@,
        "string"@ != "default"@,
        "string"@ != "range"@,
        "string"@ != "readonly"@,
        "string"@ != "source"@,
        "string"@ != "help"@,
        "prompt"@ != "depends"@,
        "prompt"@ != "select"@,
        "prompt"@ != "default"@,
        "prompt"@ != "range"@,
        "prompt"@ != "readonly"@,
        "prompt"@ != "source"@,
        "prompt"@ != "help"@,
        "depends"@ != "select"@,
        "depends"@ != "default"@,
        "depends"@ != "range"@,
        "depends"@ != "readonly"@,
        "depends"@ != "source"@,
        "depends"@ != "help"@,
        "select"@ != "default"@,
        "select"@ != "range"@,
        "select"@ != "readonly"@,
        "select"@ != "source"@,
        "select"@ != "help"@,
        "default"@ != "range"@,
        "default"@ != "readonly"@,
        "default"@ != "source"@,
        "default"@ != "help"@,
        "range"@ != "readonly"@,
        "range"@ != "source"@,
        "range"@ != "help"@,
        "readonly"@ != "source"@,
        "readonly"@ != "help"@,
        "source"@ != "help"@,
{
    reveal_strlit("config");
    reveal_strlit("choice");
    reveal_strlit("endchoice");
    reveal_strlit("menu");
    reveal_strlit("endmenu");
    reveal_strlit("bool");
    reveal_strlit("tristate");
    reveal_strlit("int");
    reveal_strlit("hex");
    reveal_strlit("string");
    reveal_strlit("prompt");
    reveal_strlit("depends");
    reveal_strlit("select");
    reveal_strlit("default");
    reveal_strlit("range");
    reveal_strlit("readonly");
    reveal_strlit("source");
    reveal_strlit("help");
    assert("config"@[1] != "choice"@[1]);
    assert("config"@.len() != "endchoice"@.len());
    assert("config"@.len() != "menu"@.len());
    assert("config"@.len() != "endmenu"@.len());
    assert("config"@.len() != "bool"@.len());
    assert("config"@.len() != "tristate"@.len());
    assert("config"@.len() != "int"@.len());
    assert("config"@.len() != "hex"@.len());
    assert("config"@[0] != "string"@[0]);
    assert("config"@[0] != "prompt"@[0]);
    assert("config"@.len() != "depends"@.len());
    assert("config"@[0] != "select"@[0]);
    assert("config"@.len() != "default"@.len());
    assert("config"@.len() != "range"@.len());
    assert("config"@.len() != "readonly"@.len());
    assert("config"@[0] != "source"@[0]);
    assert("config"@.len() != "help"@.len());
    assert("choice"@.len() != "endchoice"@.len());
    assert("choice"@.len() != "menu"@.len());
    assert("choice"@.len() != "endmenu"@.len());
    assert("choice"@.len() != "bool"@.len());
    assert("choice"@.len() != "tristate"@.len());
    assert("choice"@.len() != "int"@.len());
    assert("choice"@.len() != "hex"@.len());
    assert("choice"@[0] != "string"@[0]);
    assert("choice"@[0] != "prompt"@[0]);
    assert("choice"@.len() != "depends"@.len());
    assert("choice"@[0] != "select"@[0]);
    assert("choice"@.len() != "default"@.len());
    assert("choice"@.len() != "range"@.len());
    assert("choice"@.len() != "readonly"@.len());
    assert("choice"@[0] != "source"@[0]);
    assert("choice"@.len() != "help"@.len());
    assert("endchoice"@.len() != "menu"@.len());
    assert("endchoice"@.len() != "endmenu"@.len());
    assert("endchoice"@.len() != "bool"@.len());
    assert("endchoice"@.len() != "tristate"@.len());
    assert("endchoice"@.len() != "int"@.len());
    assert("endchoice"@.len() != "hex"@.len());
    assert("endchoice"@.len() != "string"@.len());
    assert("endchoice"@.len() != "prompt"@.len());
    assert("endchoice"@.len() != "depends"@.len());
    assert("endchoice"@.len() != "select"@.len());
    assert("endchoice"@.len() != "default"@.len());
    assert("endchoice"@.len() != "range"@.len());
    assert("endchoice"@.len() != "readonly"@.len());
    assert("endchoice"@.len() != "source"@.len());
    assert("endchoice"@.len() != "help"@.len());
    assert("menu"@.len() != "endmenu"@.len());
    assert("menu"@[0] != "bool"@[0]);
    assert("menu"@.len() != "tristate"@.len());
    assert("menu"@.len() != "int"@.len());
    assert("menu"@.len() != "hex"@.len());
    assert("menu"@.len() != "string"@.len());
    assert("menu"@.len() != "prompt"@.len());
    assert("menu"@.len() != "depends"@.len());
    assert("menu"@.len() != "select"@.len());
    assert("menu"@.len() != "default"@.len());
    assert("menu"@.len() != "range"@.len());
    assert("menu"@.len() != "readonly"@.len());
    assert("menu"@.len() != "source"@.len());
    assert("menu"@[0] != "help"@[0]);
    assert("endmenu"@.len() != "bool"@.len());
    assert("endmenu"@.len() != "tristate"@.len());
    assert("endmenu"@.len() != "int"@.len());
    assert("endmenu"@.len() != "hex"@.len());
    assert("endmenu"@.len() != "string"@.len());
    assert("endmenu"@.len() != "prompt"@.len());
    assert("endmenu"@[0] != "depends"@[0]);
    assert("endmenu"@.len() != "select"@.len());
    assert("endmenu"@[0] != "default"@[0]);
    assert("endmenu"@.len() != "range"@.len());
    assert("endmenu"@.len() != "readonly"@.len());
    assert("endmenu"@.len() != "source"@.len());
    assert("endmenu"@.len() != "help"@.len());
    assert("bool"@.len() != "tristate"@.len());
    assert("bool"@.len() != "int"@.len());
    assert("bool"@.len() != "hex"@.len());
    assert("bool"@.len() != "string"@.len());
    assert("bool"@.len() != "prompt"@.len());
    assert("bool"@.len() != "depends"@.len());
    assert("bool"@.len() != "select"@.len());
    assert("bool"@.len() != "default"@.len());
    assert("bool"@.len() != "range"@.len());
    assert("bool"@.len() != "readonly"@.len());
    assert("bool"@.len() != "source"@.len());
    assert("bool"@[0] != "help"@[0]);
    assert("tristate"@.len() != "int"@.len());
    assert("tristate"@.len() != "hex"@.len());
    assert("tristate"@.len() != "string"@.len());
    assert("tristate"@.len() != "prompt"@.len());
    assert("tristate"@.len() != "depends"@.len());
    assert("tristate"@.len() != "select"@.len());
    assert("tristate"@.len() != "default"@.len());
    assert("tristate"@.len() != "range"@.len());
    assert("tristate"@[0] != "readonly"@[0]);
    assert("tristate"@.len() != "source"@.len());
    assert("tristate"@.len() != "help"@.len());
    assert("int"@[0] != "hex"@[0]);
    assert("int"@.len() != "string"@.len());
    assert("int"@.len() != "prompt"@.len());
    assert("int"@.len() != "depends"@.len());
    assert("int"@.len() != "select"@.len());
    assert("int"@.len() != "default"@.len());
    assert("int"@.len() != "range"@.len());
    assert("int"@.len() != "readonly"@.len());
    assert("int"@.len() != "source"@.len());
    assert("int"@.len() != "help"@.len());
    assert("hex"@.len() != "string"@.len());
    assert("hex"@.len() != "prompt"@.len());
    assert("hex"@.len() != "depends"@.len());
    assert("hex"@.len() != "select"@.len());
    assert("hex"@.len() != "default"@.len());
    assert("hex"@.len() != "range"@.len());
    assert("hex"@.len() != "readonly"@.len());
    assert("hex"@.len() != "source"@.len());
    assert("hex"@.len() != "help"@.len());
    assert("string"@[0] != "prompt"@[0]);
    assert("string"@.len() != "depends"@.len());
    assert("string"@[1] != "select"@[1]);
    assert("string"@.len() != "default"@.len());
    assert("string"@.len() != "range"@.len());
    assert("string"@.len() != "readonly"@.len());
    assert("string"@[1] != "source"@[1]);
    assert("string"@.len() != "help"@.len());
    assert("prompt"@.len() != "depends"@.len());
    assert("prompt"@[0] != "select"@[0]);
    assert("prompt"@.len() != "default"@.len());
    assert("prompt"@.len() != "range"@.len());
    assert("prompt"@.len() != "readonly"@.len());
    assert("prompt"@[0] != "source"@[0]);
    assert("prompt"@.len() != "help"@.len());
    assert("depends"@.len() != "select"@.len());
    assert("depends"@[2] != "default"@[2]);
    assert("depends"@.len() != "range"@.len());
    assert("depends"@.len() != "readonly"@.len());
    assert("depends"@.len() != "source"@.len());
    assert("depends"@.len() != "help"@.len());
    assert("select"@.len() != "default"@.len());
    assert("select"@.len() != "range"@.len());
    assert("select"@.len() != "readonly"@.len());
    assert("select"@[1] != "source"@[1]);
    assert("select"@.len() != "help"@.len());
    assert("default"@.len() != "range"@.len());
    assert("default"@.len() != "readonly"@.len());
    assert("default"@.len() != "source"@.len());
    assert("default"@.len() != "help"@.len());
    assert("range"@.len() != "readonly"@.len());
    assert("range"@.len() != "source"@.len());
    assert("range"@.len() != "help"@.len());
    assert("readonly"@.len() != "source"@.len());
    assert("readonly"@.len() != "help"@.len());
    assert("source"@.len() != "help"@.len());
}

/// `r` with its open symbol replaced by `s`, and nothing else changed.
pub open spec fn with_open_symbol(r: Reading, s: super::Sym) -> Reading {
    Reading {
        table: super::Table {
            symbols: r.table.symbols.update(r.cur->0, s),
            choices: r.table.choices,
            menus: r.table.menus,
        },
        cur: r.cur,
        choice: r.choice,
        menu: r.menu,
    }
}

/// A line goes to what its keyword stands for: what is read next is what the keyword makes of what
/// was read before, with the rest of the line.
pub proof fn lines_go_to_their_keywords(
    files: Seq<parse::Doc>,
    entry: Seq<char>,
    path: Seq<char>,
    ls: Seq<Seq<char>>,
    i: int,
    r: Reading,
    base: Option<int>,
    seen: Seq<bool>,
    kw: Seq<char>,
    rest: Seq<char>,
)
    requires
        0 <= i < ls.len(),
        text::trimmed(ls[i]) == kw + seq![' '] + rest,
        is_one_word(kw),
        kw[0] != '#',
        kw != "source"@,
        kw != "help"@,
    ensures
        parse::lines_read(files, entry, path, ls, i, r, base, seen) == match parse::took(
            r,
            base,
            path,
            i + 1,
            kw,
            seq![' '] + rest,
        ) {
            Ok(n) => parse::lines_read(files, entry, path, ls, i + 1, n, base, seen),
            Err(m) => Err(parse::Wrong { file: path, line: i + 1, msg: m }),
        },
{
    let s = text::trimmed(ls[i]);
    let n = kw.len() as int;
    words_reach_space(s, n, 0, kw);
    assert(s.subrange(0, n) =~= kw);
    assert(s.subrange(n, s.len() as int) =~= seq![' '] + rest);
    assert(s[0] == kw[0]);
}

proof fn words_reach_space(s: Seq<char>, n: int, i: int, kw: Seq<char>)
    requires
        0 <= i <= n,
        n == kw.len(),
        n < s.len(),
        is_one_word(kw),
        forall|j: int| 0 <= j < n ==> #[trigger] s[j] == kw[j],
        s[n] == ' ',
    ensures
        text::until_space(s, i) == n,
    decreases n - i,
{
    if i < n {
        assert(s[i] == kw[i]);
        assert(!text::space(kw[i]));
        words_reach_space(s, n, i + 1, kw);
    }
}

/// Blank lines and comments add nothing.
pub proof fn comments_add_nothing(
    files: Seq<parse::Doc>,
    entry: Seq<char>,
    path: Seq<char>,
    ls: Seq<Seq<char>>,
    i: int,
    r: Reading,
    base: Option<int>,
    seen: Seq<bool>,
)
    requires
        0 <= i < ls.len(),
        text::trimmed(ls[i]).len() == 0 || text::trimmed(ls[i])[0] == '#',
    ensures
        parse::lines_read(files, entry, path, ls, i, r, base, seen) == parse::lines_read(
            files,
            entry,
            path,
            ls,
            i + 1,
            r,
            base,
            seen,
        ),
{
}

/// `select T if C` gives the open symbol one more `select`, of `T` under the condition that `C`
/// reads as; `select T` gives it one of `T` without a condition. Outside a symbol, and where `C` does
/// not read as a condition, it is refused.
pub proof fn selects_keep_their_condition(
    r: Reading,
    base: Option<int>,
    file: Seq<char>,
    line: int,
    target: Seq<char>,
    condition: Seq<char>,
)
    requires
        is_one_word(target),
        is_neat(condition),
    ensures
        ({
            let old_sym = r.table.symbols[r.cur->0];
            let with = parse::took(r, base, file, line, "select"@, seq![' '] + guarded(target, condition));
            let bare = parse::took(r, base, file, line, "select"@, seq![' '] + target);
            &&& r.cur is Some && expr::condition(condition) is Ok ==> with == Ok::<Reading, Seq<char>>(
                with_open_symbol(
                    r,
                    super::Sym {
                        selects: old_sym.selects.push(
                            super::Pull { target, cond: Some(expr::condition(condition)->Ok_0) },
                        ),
                        ..old_sym
                    },
                ),
            )
            &&& r.cur is Some ==> bare == Ok::<Reading, Seq<char>>(
                with_open_symbol(
                    r,
                    super::Sym { selects: old_sym.selects.push(super::Pull { target, cond: None }), ..old_sym },
                ),
            )
            &&& r.cur is None ==> with is Err && bare is Err
            &&& expr::condition(condition) is Err ==> with is Err
        }),
{
    keywords_differ();
    words_are_free_of_if(target);
    assert(is_neat(target));
    clauses_fall_apart(target, condition);
}

/// `default V if C` gives the open symbol one more default, behind those it has: the value that `V`
/// reads as for the symbol's kind, under the condition that `C` reads as. `default V` gives it one
/// without a condition.
pub proof fn defaults_keep_their_condition(
    r: Reading,
    base: Option<int>,
    file: Seq<char>,
    line: int,
    value: Seq<char>,
    condition: Seq<char>,
)
    requires
        is_one_word(value),
        is_neat(condition),
        r.cur is Some,
        parse::value_of(value, r.table.symbols[r.cur->0].kind) is Ok,
    ensures
        ({
            let old_sym = r.table.symbols[r.cur->0];
            let v = parse::value_of(value, old_sym.kind)->Ok_0;
            let with = parse::took(r, base, file, line, "default"@, seq![' '] + guarded(value, condition));
            let bare = parse::took(r, base, file, line, "default"@, seq![' '] + value);
            &&& expr::condition(condition) is Ok ==> with == Ok::<Reading, Seq<char>>(
                with_open_symbol(
                    r,
                    super::Sym {
                        defaults: old_sym.defaults.push(
                            super::Fallback { value: v, cond: Some(expr::condition(condition)->Ok_0) },
                        ),
                        ..old_sym
                    },
                ),
            )
            &&& bare == Ok::<Reading, Seq<char>>(
                with_open_symbol(
                    r,
                    super::Sym { defaults: old_sym.defaults.push(super::Fallback { value: v, cond: None }), ..old_sym },
                ),
            )
            &&& expr::condition(condition) is Err ==> with is Err
        }),
{
    keywords_differ();
    words_are_free_of_if(value);
    assert(is_neat(value));
    clauses_fall_apart(value, condition);
}

/// `default` in a choice, before any of its members, gives the choice one more default: the name of a
/// member, under its condition.
pub proof fn choices_keep_their_defaults(
    r: Reading,
    base: Option<int>,
    file: Seq<char>,
    line: int,
    member: Seq<char>,
    condition: Seq<char>,
)
    requires
        is_one_word(member),
        is_neat(condition),
        r.cur is None,
        r.choice is Some,
        expr::condition(condition) is Ok,
        0 <= parse::open_choice(r) < r.table.choices.len(),
    ensures
        ({
            let c = parse::open_choice(r);
            let g = r.table.choices[c];
            let with = parse::took(r, base, file, line, "default"@, seq![' '] + guarded(member, condition));
            let bare = parse::took(r, base, file, line, "default"@, seq![' '] + member);
            &&& with is Ok
            &&& bare is Ok
            &&& with->Ok_0.table.symbols == r.table.symbols
            &&& with->Ok_0.table.choices[c].defaults == g.defaults.push(
                super::Fallback {
                    value: super::Value::Str(member),
                    cond: Some(expr::condition(condition)->Ok_0),
                },
            )
            &&& bare->Ok_0.table.choices[c].defaults == g.defaults.push(
                super::Fallback { value: super::Value::Str(member), cond: None },
            )
            &&& forall|i: int|
                0 <= i < r.table.choices.len() && i != c ==> #[trigger] with->Ok_0.table.choices[i]
                    == r.table.choices[i]
            &&& with->Ok_0.table.choices[c].members == g.members
        }),
{
    keywords_differ();
    words_are_free_of_if(member);
    assert(is_neat(member));
    neat_stays(member);
    clauses_fall_apart(member, condition);
}

/// `range L H if C` gives the open symbol one more range, from what `L` reads as to what `H` reads
/// as, under its condition. One that ends before it begins is refused.
pub proof fn ranges_keep_their_bounds(
    r: Reading,
    base: Option<int>,
    file: Seq<char>,
    line: int,
    low: Seq<char>,
    high: Seq<char>,
    condition: Seq<char>,
)
    requires
        is_one_word(low),
        is_one_word(high),
        is_neat(condition),
        r.cur is Some,
        parse::bound_of(low) is Some,
        parse::bound_of(high) is Some,
        expr::condition(condition) is Ok,
    ensures
        ({
            let old_sym = r.table.symbols[r.cur->0];
            let (lo, hi) = (parse::bound_of(low)->0, parse::bound_of(high)->0);
            let words = low + seq![' '] + high;
            let with = parse::took(r, base, file, line, "range"@, seq![' '] + guarded(words, condition));
            let bare = parse::took(r, base, file, line, "range"@, seq![' '] + words);
            &&& lo <= hi ==> with == Ok::<Reading, Seq<char>>(
                with_open_symbol(
                    r,
                    super::Sym {
                        ranges: old_sym.ranges.push(
                            super::Span { lo, hi, cond: Some(expr::condition(condition)->Ok_0) },
                        ),
                        ..old_sym
                    },
                ),
            )
            &&& lo <= hi ==> bare == Ok::<Reading, Seq<char>>(
                with_open_symbol(
                    r,
                    super::Sym { ranges: old_sym.ranges.push(super::Span { lo, hi, cond: None }), ..old_sym },
                ),
            )
            &&& lo > hi ==> with is Err && bare is Err
        }),
{
    keywords_differ();
    let words = low + seq![' '] + high;
    pairs_are_free_of_if(low, high);
    assert(words[0] == low[0]);
    assert(words.last() == high.last());
    assert(is_neat(words));
    clauses_fall_apart(words, condition);
    two_words_are_two(low, high);
}

proof fn two_words_are_two(a: Seq<char>, b: Seq<char>)
    requires
        is_one_word(a),
        is_one_word(b),
    ensures
        text::words(a + seq![' '] + b, 0) == seq![a, b],
{
    let s = a + seq![' '] + b;
    let n = a.len() as int;
    assert(s[0] == a[0]);
    assert(!text::space(a[0]));
    past_blank(s, 0, 0);
    words_reach_space(s, n, 0, a);
    assert(s.subrange(0, n) =~= a);
    assert forall|j: int| n <= j < n + 1 implies text::space(#[trigger] s[j]) by {}
    assert(s[n + 1] == b[0]);
    assert(!text::space(b[0]));
    past_blank(s, n, n + 1);
    words_reach_end(s, n + 1);
    assert(s.subrange(n + 1, s.len() as int) =~= b);
    let m = s.len() as int;
    past_blank(s, m, m);
    assert(text::words(s, m) =~= seq![]);
    assert(text::words(s, n) =~= seq![b]) by {
        assert(text::words(s, n) == seq![s.subrange(n + 1, m)] + text::words(s, m));
    }
    assert(text::words(s, 0) == seq![s.subrange(0, n)] + text::words(s, n));
    assert(text::words(s, 0) =~= seq![a, b]);
}

proof fn words_reach_end(s: Seq<char>, i: int)
    requires
        0 <= i <= s.len(),
        forall|j: int| i <= j < s.len() ==> !text::space(#[trigger] s[j]),
    ensures
        text::until_space(s, i) == s.len(),
    decreases s.len() - i,
{
    if i < s.len() {
        assert(!text::space(s[i]));
        words_reach_end(s, i + 1);
    }
}

/// `depends on C` makes the condition that `C` reads as that of the open symbol, or of the open
/// choice where none of its members is open. Outside both it is refused.
pub proof fn dependencies_go_to_what_is_open(
    r: Reading,
    base: Option<int>,
    file: Seq<char>,
    line: int,
    condition: Seq<char>,
)
    requires
        is_neat(condition),
        expr::condition(condition) is Ok,
        r.choice is Some ==> 0 <= parse::open_choice(r) < r.table.choices.len(),
    ensures
        ({
            let e = expr::condition(condition)->Ok_0;
            let n = parse::took(r, base, file, line, "depends"@, seq![' ', 'o', 'n', ' '] + condition);
            &&& r.cur is Some ==> n == Ok::<Reading, Seq<char>>(
                with_open_symbol(r, super::Sym { depends: Some(e), ..r.table.symbols[r.cur->0] }),
            )
            &&& r.cur is None && r.choice is Some ==> n is Ok && n->Ok_0.table.symbols == r.table.symbols
                && n->Ok_0.table.choices[parse::open_choice(r)].depends == Some(e)
            &&& r.cur is None && r.choice is None ==> n is Err
        }),
{
    keywords_differ();
    let x = seq!['o', 'n', ' '] + condition;
    assert(seq![' ', 'o', 'n', ' '] + condition =~= seq![' '] + x);
    assert(x.last() == condition.last());
    neat_stays(x);
    assert(x.subrange(3, x.len() as int) =~= condition);
}

/// The keyword of each kind makes the open symbol one of that kind, and a text in quotation marks
/// behind it is the symbol's prompt.
pub proof fn kinds_and_prompts_go_to_the_symbol(
    r: Reading,
    base: Option<int>,
    file: Seq<char>,
    line: int,
    kw: Seq<char>,
    kind: Kind,
    prompt: Seq<char>,
)
    requires
        r.cur is Some,
        kw == match kind {
            Kind::Bool => "bool"@,
            Kind::Tristate => "tristate"@,
            Kind::Int => "int"@,
            Kind::Hex => "hex"@,
            Kind::Str => "string"@,
        },
    ensures
        ({
            let old_sym = r.table.symbols[r.cur->0];
            let quoted = seq![' ', '"'] + prompt + seq!['"'];
            &&& parse::took(r, base, file, line, kw, quoted) == Ok::<Reading, Seq<char>>(
                with_open_symbol(r, super::Sym { kind, prompt: Some(prompt), ..old_sym }),
            )
            &&& parse::took(r, base, file, line, kw, seq![]) == Ok::<Reading, Seq<char>>(
                with_open_symbol(r, super::Sym { kind, ..old_sym }),
            )
            &&& parse::took(r, base, file, line, "prompt"@, quoted) == Ok::<Reading, Seq<char>>(
                with_open_symbol(r, super::Sym { prompt: Some(prompt), ..old_sym }),
            )
            &&& parse::took(r, base, file, line, "readonly"@, seq![]) == Ok::<Reading, Seq<char>>(
                with_open_symbol(r, super::Sym { readonly: true, ..old_sym }),
            )
        }),
{
    keywords_differ();
    let q = seq!['"'] + prompt + seq!['"'];
    assert(seq![' ', '"'] + prompt + seq!['"'] =~= seq![' '] + q);
    assert(q[0] == '"' && q.last() == '"');
    neat_stays(q);
    assert(q.subrange(1, q.len() - 1) =~= prompt);
    let none = Seq::<char>::empty();
    assert(text::trimmed(none).len() == 0);
}

/// `config N` adds one symbol, behind all others, called `N`: a `bool` with nothing said of it yet,
/// in the choice and the menu that are open, and declared where the line stands. It is the symbol that
/// what follows belongs to, and the last member of the choice that is open. A name that is taken is
/// refused.
pub proof fn a_config_line_adds_one_symbol(r: Reading, base: Option<int>, file: Seq<char>, line: int, name: Seq<char>)
    requires
        is_neat(name),
        r.choice is Some ==> 0 <= parse::open_choice(r) < r.table.choices.len(),
    ensures
        ({
            let taken = exists|i: int| 0 <= i < r.table.symbols.len() && (#[trigger] r.table.symbols[i]).name == name;
            let n = parse::took(r, base, file, line, "config"@, seq![' '] + name);
            let k = r.table.symbols.len() as int;
            &&& taken ==> n is Err
            &&& !taken ==> {
                &&& n is Ok
                &&& n->Ok_0.table.symbols.len() == k + 1
                &&& forall|i: int| 0 <= i < k ==> #[trigger] n->Ok_0.table.symbols[i] == r.table.symbols[i]
                &&& n->Ok_0.cur == Some(k)
                &&& n->Ok_0.choice == r.choice
                &&& n->Ok_0.menu == r.menu
                &&& ({
                    let s = n->Ok_0.table.symbols[k];
                    &&& s.name == name
                    &&& s.kind == Kind::Bool
                    &&& s.prompt is None
                    &&& s.depends is None
                    &&& s.defaults.len() == 0
                    &&& s.selects.len() == 0
                    &&& s.ranges.len() == 0
                    &&& s.help is None
                    &&& !s.readonly
                    &&& s.choice == r.choice
                    &&& s.menu == r.menu
                    &&& s.origin.file == file
                    &&& s.origin.line == line
                })
                &&& n->Ok_0.table.menus == r.table.menus
                &&& n->Ok_0.table.choices.len() == r.table.choices.len()
                &&& r.choice is None ==> n->Ok_0.table.choices == r.table.choices
                &&& r.choice is Some ==> n->Ok_0.table.choices[parse::open_choice(r)].members
                    == r.table.choices[parse::open_choice(r)].members.push(name)
            }
        }),
{
    keywords_differ();
    neat_stays(name);
    found_or_not(r.table.symbols, name, 0);
}

proof fn found_or_not(syms: Seq<super::Sym>, name: Seq<char>, from: int)
    requires
        0 <= from,
    ensures
        super::sym_from(syms, name, from) is Some <==> exists|i: int|
            from <= i < syms.len() && (#[trigger] syms[i]).name == name,
    decreases syms.len() - from,
{
    if from < syms.len() {
        found_or_not(syms, name, from + 1);
        if syms[from].name != name && exists|i: int| from <= i < syms.len() && (#[trigger] syms[i]).name == name {
            let i = choose|i: int| from <= i < syms.len() && (#[trigger] syms[i]).name == name;
            assert(from + 1 <= i < syms.len() && syms[i].name == name);
        }
    }
}

/// `menu "T"` opens a menu titled `T` inside the one that is open, and `endmenu` goes back to that
/// one: between them, what was open is open again.
pub proof fn menus_open_and_close(
    r: Reading,
    base: Option<int>,
    file: Seq<char>,
    line: int,
    title: Seq<char>,
    later: int,
)
    requires
        title.len() > 0,
        base is Some ==> 0 <= base->0 < r.table.menus.len(),
    ensures
        ({
            let n = parse::took(r, base, file, line, "menu"@, seq![' ', '"'] + title + seq!['"']);
            let k = r.table.menus.len() as int;
            &&& n is Ok
            &&& n->Ok_0.menu == Some(k)
            &&& n->Ok_0.table.menus.len() == k + 1
            &&& n->Ok_0.table.menus[k].title == title
            &&& n->Ok_0.table.menus[k].parent == r.menu
            &&& n->Ok_0.table.symbols == r.table.symbols
            &&& n->Ok_0.table.choices == r.table.choices
            &&& n->Ok_0.choice == r.choice
            &&& n->Ok_0.cur is None
            &&& parse::took(n->Ok_0, base, file, later, "endmenu"@, seq![]) == Ok::<Reading, Seq<char>>(
                Reading { table: n->Ok_0.table, cur: None, choice: r.choice, menu: r.menu },
            )
        }),
{
    keywords_differ();
    let q = seq!['"'] + title + seq!['"'];
    assert(seq![' ', '"'] + title + seq!['"'] =~= seq![' '] + q);
    assert(q[0] == '"' && q.last() == '"');
    neat_stays(q);
    assert(q.subrange(1, q.len() - 1) =~= title);
}

/// `choice N` opens a choice called `N` with no members, and `endchoice` closes it; neither can stand
/// alone.
pub proof fn choices_open_and_close(r: Reading, base: Option<int>, file: Seq<char>, line: int, name: Seq<char>)
    requires
        is_neat(name),
    ensures
        ({
            let n = parse::took(r, base, file, line, "choice"@, seq![' '] + name);
            &&& n is Ok
            &&& n->Ok_0.choice == Some(name)
            &&& n->Ok_0.cur is None
            &&& n->Ok_0.menu == r.menu
            &&& n->Ok_0.table.symbols == r.table.symbols
            &&& n->Ok_0.table.menus == r.table.menus
            &&& exists|c: int|
                {
                    &&& 0 <= c < n->Ok_0.table.choices.len()
                    &&& (#[trigger] n->Ok_0.table.choices[c]).name == name
                    &&& n->Ok_0.table.choices[c].members.len() == 0
                    &&& n->Ok_0.table.choices[c].defaults.len() == 0
                    &&& n->Ok_0.table.choices[c].depends is None
                    &&& n->Ok_0.table.choices[c].menu == r.menu
                    &&& n->Ok_0.table.choices[c].origin == (super::Place { file, line })
                }
            &&& forall|i: int| #![trigger r.table.choices[i]]
                0 <= i < r.table.choices.len() && r.table.choices[i].name != name ==> n->Ok_0.table.choices.contains(
                    r.table.choices[i],
                )
            &&& parse::took(n->Ok_0, base, file, line, "endchoice"@, seq![]) == Ok::<Reading, Seq<char>>(
                Reading { table: n->Ok_0.table, cur: None, choice: None, menu: r.menu },
            )
            &&& r.choice is None ==> parse::took(r, base, file, line, "endchoice"@, seq![]) is Err
        }),
{
    keywords_differ();
    neat_stays(name);
    let n = parse::took(r, base, file, line, "choice"@, seq![' '] + name)->Ok_0;
    let old_choices = r.table.choices;
    super::table::slot_in_range(old_choices, name);
    let k = super::table::slot(old_choices, name, 0);
    assert(n.table.choices[k].name == name);
    assert forall|i: int| #![trigger r.table.choices[i]]
        0 <= i < old_choices.len() && old_choices[i].name != name implies n.table.choices.contains(old_choices[i]) by {
        if k < old_choices.len() && old_choices[k].name == name {
            assert(n.table.choices[i] == old_choices[i]);
        } else if i < k {
            assert(n.table.choices[i] == old_choices[i]);
        } else {
            assert(n.table.choices[i + 1] == old_choices[i]);
        }
    }
}

/// A keyword that the language does not have is refused.
pub proof fn unknown_keywords_are_refused(
    r: Reading,
    base: Option<int>,
    file: Seq<char>,
    line: int,
    kw: Seq<char>,
    rest: Seq<char>,
)
    requires
        kw != "config"@,
        kw != "choice"@,
        kw != "endchoice"@,
        kw != "menu"@,
        kw != "endmenu"@,
        kw != "bool"@,
        kw != "tristate"@,
        kw != "int"@,
        kw != "hex"@,
        kw != "string"@,
        kw != "prompt"@,
        kw != "depends"@,
        kw != "select"@,
        kw != "default"@,
        kw != "range"@,
        kw != "readonly"@,
    ensures
        parse::took(r, base, file, line, kw, rest) is Err,
{
}

} // verus!
