//! Condition expressions: `depends on`, `default ... if ...`, `select ... if ...`.
//!
//! Grammar:
//!   or      := and ('||' and)*
//!   and     := unary ('&&' unary)*
//!   unary   := '!' unary | primary
//!   primary := '(' or ')' | literal | IDENT [('='|'!=') (IDENT|literal|string)]

use vstd::prelude::*;
use vstd::string::*;

use crate::text;

verus! {

/// Three-valued logic, so `tristate` (built in / module / absent) needs no special case.
#[derive(Debug, Clone, Copy, PartialEq, Eq, PartialOrd, Ord, Structural)]
pub enum Tri {
    N,
    M,
    Y,
}

/// Where `t` stands in the order `n < m < y`.
pub open spec fn rank(t: Tri) -> int {
    match t {
        Tri::N => 0,
        Tri::M => 1,
        Tri::Y => 2,
    }
}

/// The lower of two values.
pub open spec fn tri_and(a: Tri, b: Tri) -> Tri {
    if rank(a) <= rank(b) {
        a
    } else {
        b
    }
}

/// The higher of two values.
pub open spec fn tri_or(a: Tri, b: Tri) -> Tri {
    if rank(a) <= rank(b) {
        b
    } else {
        a
    }
}

/// The value as far from `y` as `a` is from `n`.
pub open spec fn tri_not(a: Tri) -> Tri {
    match a {
        Tri::N => Tri::Y,
        Tri::M => Tri::M,
        Tri::Y => Tri::N,
    }
}

/// How a value is written.
pub open spec fn tri_text(t: Tri) -> Seq<char> {
    match t {
        Tri::N => seq!['n'],
        Tri::M => seq!['m'],
        Tri::Y => seq!['y'],
    }
}

/// The value a text writes, in either case.
pub open spec fn tri_of(s: Seq<char>) -> Option<Tri> {
    if s.len() != 1 {
        None
    } else if s[0] == 'n' || s[0] == 'N' {
        Some(Tri::N)
    } else if s[0] == 'm' || s[0] == 'M' {
        Some(Tri::M)
    } else if s[0] == 'y' || s[0] == 'Y' {
        Some(Tri::Y)
    } else {
        None
    }
}

/// The three-valued logic obeys De Morgan's laws, and negation undoes itself.
pub proof fn tri_logic(a: Tri, b: Tri)
    ensures
        tri_not(tri_not(a)) == a,
        tri_not(tri_and(a, b)) == tri_or(tri_not(a), tri_not(b)),
        tri_not(tri_or(a, b)) == tri_and(tri_not(a), tri_not(b)),
{
}

/// Reading a value back from its text gives the value.
pub proof fn tri_reads_back(t: Tri)
    ensures
        tri_of(tri_text(t)) == Some(t),
{
}

impl Tri {
    pub fn as_str(self) -> (r: &'static str)
        ensures
            r@ == tri_text(self),
    {
        proof {
            reveal_strlit("n");
            reveal_strlit("m");
            reveal_strlit("y");
        }
        let r: &'static str = match self {
            Tri::N => "n",
            Tri::M => "m",
            Tri::Y => "y",
        };
        assert(r@ =~= tri_text(self));
        r
    }

    pub fn from_str(s: &str) -> (r: Option<Tri>)
        ensures
            r == tri_of(s@),
    {
        let c = text::chars(s);
        if c.len() != 1 {
            None
        } else if c[0] == 'n' || c[0] == 'N' {
            Some(Tri::N)
        } else if c[0] == 'm' || c[0] == 'M' {
            Some(Tri::M)
        } else if c[0] == 'y' || c[0] == 'Y' {
            Some(Tri::Y)
        } else {
            None
        }
    }

    pub fn and(self, other: Tri) -> (r: Tri)
        ensures
            r == tri_and(self, other),
    {
        match (self, other) {
            (Tri::N, _) => Tri::N,
            (_, Tri::N) => Tri::N,
            (Tri::M, _) => Tri::M,
            (_, Tri::M) => Tri::M,
            (Tri::Y, Tri::Y) => Tri::Y,
        }
    }

    pub fn or(self, other: Tri) -> (r: Tri)
        ensures
            r == tri_or(self, other),
    {
        match (self, other) {
            (Tri::Y, _) => Tri::Y,
            (_, Tri::Y) => Tri::Y,
            (Tri::M, _) => Tri::M,
            (_, Tri::M) => Tri::M,
            (Tri::N, Tri::N) => Tri::N,
        }
    }

    pub fn not(self) -> (r: Tri)
        ensures
            r == tri_not(self),
    {
        match self {
            Tri::N => Tri::Y,
            Tri::M => Tri::M,
            Tri::Y => Tri::N,
        }
    }
}

#[derive(Debug, PartialEq)]
pub enum Expr {
    Const(Tri),
    Sym(String),
    Not(Box<Expr>),
    And(Box<Expr>, Box<Expr>),
    Or(Box<Expr>, Box<Expr>),
    Eq(String, String),
    Ne(String, String),
}

/// An expression over mathematical strings.
pub enum Cond {
    Const(Tri),
    Sym(Seq<char>),
    Not(Box<Cond>),
    And(Box<Cond>, Box<Cond>),
    Or(Box<Cond>, Box<Cond>),
    Eq(Seq<char>, Seq<char>),
    Ne(Seq<char>, Seq<char>),
}

/// What `e` says.
pub open spec fn cond(e: Expr) -> Cond
    decreases e,
{
    match e {
        Expr::Const(t) => Cond::Const(t),
        Expr::Sym(s) => Cond::Sym(s@),
        Expr::Not(a) => Cond::Not(Box::new(cond(*a))),
        Expr::And(a, b) => Cond::And(Box::new(cond(*a)), Box::new(cond(*b))),
        Expr::Or(a, b) => Cond::Or(Box::new(cond(*a)), Box::new(cond(*b))),
        Expr::Eq(s, v) => Cond::Eq(s@, v@),
        Expr::Ne(s, v) => Cond::Ne(s@, v@),
    }
}

impl View for Expr {
    type V = Cond;

    open spec fn view(&self) -> Cond {
        cond(*self)
    }
}

impl Clone for Expr {
    fn clone(&self) -> (r: Expr)
        ensures
            r@ == self@,
        decreases self,
    {
        match self {
            Expr::Const(t) => Expr::Const(*t),
            Expr::Sym(s) => Expr::Sym(s.clone()),
            Expr::Not(a) => Expr::Not(Box::new((&**a).clone())),
            Expr::And(a, b) => Expr::And(Box::new((&**a).clone()), Box::new((&**b).clone())),
            Expr::Or(a, b) => Expr::Or(Box::new((&**a).clone()), Box::new((&**b).clone())),
            Expr::Eq(s, v) => Expr::Eq(s.clone(), v.clone()),
            Expr::Ne(s, v) => Expr::Ne(s.clone(), v.clone()),
        }
    }
}

/// What an expression is worth where `tri` and `lit` say what each symbol is.
pub open spec fn worth(e: Cond, tri: spec_fn(Seq<char>) -> Tri, lit: spec_fn(Seq<char>) -> Seq<char>) -> Tri
    decreases e,
{
    match e {
        Cond::Const(t) => t,
        Cond::Sym(s) => tri(s),
        Cond::Not(a) => tri_not(worth(*a, tri, lit)),
        Cond::And(a, b) => tri_and(worth(*a, tri, lit), worth(*b, tri, lit)),
        Cond::Or(a, b) => tri_or(worth(*a, tri, lit), worth(*b, tri, lit)),
        Cond::Eq(s, v) => if lit(s) == v {
            Tri::Y
        } else {
            Tri::N
        },
        Cond::Ne(s, v) => if lit(s) != v {
            Tri::Y
        } else {
            Tri::N
        },
    }
}

/// Every symbol an expression names, in reading order.
pub open spec fn named(e: Cond) -> Seq<Seq<char>>
    decreases e,
{
    match e {
        Cond::Const(_) => seq![],
        Cond::Sym(s) => seq![s],
        Cond::Not(a) => named(*a),
        Cond::And(a, b) => named(*a) + named(*b),
        Cond::Or(a, b) => named(*a) + named(*b),
        Cond::Eq(s, _) => seq![s],
        Cond::Ne(s, _) => seq![s],
    }
}

/// How an expression is written out, every `&&` and `||` in brackets.
pub open spec fn shown(e: Cond) -> Seq<char>
    decreases e,
{
    match e {
        Cond::Const(t) => tri_text(t),
        Cond::Sym(s) => s,
        Cond::Not(a) => "!"@ + shown(*a),
        Cond::And(a, b) => "("@ + shown(*a) + " && "@ + shown(*b) + ")"@,
        Cond::Or(a, b) => "("@ + shown(*a) + " || "@ + shown(*b) + ")"@,
        Cond::Eq(s, v) => s + " = "@ + v,
        Cond::Ne(s, v) => s + " != "@ + v,
    }
}

/// Whether every answer `f` can give about a name is the one `g` gives.
pub open spec fn answers_tri<F: Fn(&str) -> Tri>(f: F, g: spec_fn(Seq<char>) -> Tri) -> bool {
    forall|s: &str, r: Tri| #[trigger] f.ensures((s,), r) ==> r == g(s@)
}

/// Whether every answer `f` can give about a name is the one `g` gives.
pub open spec fn answers_text<F: Fn(&str) -> String>(f: F, g: spec_fn(Seq<char>) -> Seq<char>) -> bool {
    forall|s: &str, r: String| #[trigger] f.ensures((s,), r) ==> r@ == g(s@)
}

impl Expr {
    /// Evaluate against a lookup that returns a symbol's current tri-value, and a
    /// second that returns its literal form for `=` comparisons.
    pub fn eval<F: Fn(&str) -> Tri, G: Fn(&str) -> String>(&self, tri: &F, lit: &G) -> (r: Tri)
        requires
            forall|s: &str| #[trigger] tri.requires((s,)),
            forall|s: &str| #[trigger] lit.requires((s,)),
        ensures
            forall|ft: spec_fn(Seq<char>) -> Tri, fl: spec_fn(Seq<char>) -> Seq<char>|
                answers_tri(*tri, ft) && answers_text(*lit, fl) ==> r == #[trigger] worth(self@, ft, fl),
        decreases self,
    {
        match self {
            Expr::Const(t) => *t,
            Expr::Sym(s) => {
                let r = (*tri)(s.as_str());
                assert forall|ft: spec_fn(Seq<char>) -> Tri, fl: spec_fn(Seq<char>) -> Seq<char>|
                    answers_tri(*tri, ft) && answers_text(*lit, fl) implies r == #[trigger] worth(self@, ft, fl) by {
                    assert(self@ == Cond::Sym(s@));
                }
                r
            },
            Expr::Not(e) => {
                let x = e.eval(tri, lit);
                let r = x.not();
                assert forall|ft: spec_fn(Seq<char>) -> Tri, fl: spec_fn(Seq<char>) -> Seq<char>|
                    answers_tri(*tri, ft) && answers_text(*lit, fl) implies r == #[trigger] worth(self@, ft, fl) by {
                    assert(x == worth(e@, ft, fl));
                }
                r
            },
            Expr::And(a, b) => {
                let x = a.eval(tri, lit);
                let y = b.eval(tri, lit);
                let r = x.and(y);
                assert forall|ft: spec_fn(Seq<char>) -> Tri, fl: spec_fn(Seq<char>) -> Seq<char>|
                    answers_tri(*tri, ft) && answers_text(*lit, fl) implies r == #[trigger] worth(self@, ft, fl) by {
                    assert(x == worth(a@, ft, fl));
                    assert(y == worth(b@, ft, fl));
                }
                r
            },
            Expr::Or(a, b) => {
                let x = a.eval(tri, lit);
                let y = b.eval(tri, lit);
                let r = x.or(y);
                assert forall|ft: spec_fn(Seq<char>) -> Tri, fl: spec_fn(Seq<char>) -> Seq<char>|
                    answers_tri(*tri, ft) && answers_text(*lit, fl) implies r == #[trigger] worth(self@, ft, fl) by {
                    assert(x == worth(a@, ft, fl));
                    assert(y == worth(b@, ft, fl));
                }
                r
            },
            Expr::Eq(s, v) => {
                let x = (*lit)(s.as_str());
                if x == *v {
                    Tri::Y
                } else {
                    Tri::N
                }
            },
            Expr::Ne(s, v) => {
                let x = (*lit)(s.as_str());
                if x == *v {
                    Tri::N
                } else {
                    Tri::Y
                }
            },
        }
    }

    /// Every symbol named anywhere in the expression, for dependency ordering and
    /// for explaining why a constraint failed.
    pub fn symbols(&self, out: &mut Vec<String>)
        ensures
            text::views(final(out)@) == text::views(old(out)@) + named(self@),
        decreases self,
    {
        match self {
            Expr::Const(_) => {
                assert(text::views(out@) =~= text::views(old(out)@) + named(self@));
            },
            Expr::Sym(s) => {
                out.push(s.clone());
                assert(text::views(out@) =~= text::views(old(out)@) + named(self@));
            },
            Expr::Eq(s, _) => {
                out.push(s.clone());
                assert(text::views(out@) =~= text::views(old(out)@) + named(self@));
            },
            Expr::Ne(s, _) => {
                out.push(s.clone());
                assert(text::views(out@) =~= text::views(old(out)@) + named(self@));
            },
            Expr::Not(e) => e.symbols(out),
            Expr::And(a, b) => {
                a.symbols(out);
                b.symbols(out);
                assert(text::views(out@) =~= text::views(old(out)@) + named(self@));
            },
            Expr::Or(a, b) => {
                a.symbols(out);
                b.symbols(out);
                assert(text::views(out@) =~= text::views(old(out)@) + named(self@));
            },
        }
    }

    /// The expression written out.
    pub fn to_text(&self) -> (r: String)
        ensures
            r@ == shown(self@),
        decreases self,
    {
        match self {
            Expr::Const(t) => t.as_str().to_owned(),
            Expr::Sym(s) => s.clone(),
            Expr::Not(e) => {
                let mut r = "!".to_owned();
                r.append(e.to_text().as_str());
                r
            },
            Expr::And(a, b) => {
                let mut r = "(".to_owned();
                r.append(a.to_text().as_str());
                r.append(" && ");
                r.append(b.to_text().as_str());
                r.append(")");
                r
            },
            Expr::Or(a, b) => {
                let mut r = "(".to_owned();
                r.append(a.to_text().as_str());
                r.append(" || ");
                r.append(b.to_text().as_str());
                r.append(")");
                r
            },
            Expr::Eq(s, v) => {
                let mut r = s.clone();
                r.append(" = ");
                r.append(v.as_str());
                r
            },
            Expr::Ne(s, v) => {
                let mut r = s.clone();
                r.append(" != ");
                r.append(v.as_str());
                r
            },
        }
    }
}


// ---- parsing ----

#[derive(Debug)]
enum Tok {
    Ident(String),
    Str(String),
    Not,
    And,
    Or,
    LParen,
    RParen,
    Eq,
    Ne,
}

/// A token over mathematical strings.
pub enum Token {
    Ident(Seq<char>),
    Str(Seq<char>),
    Not,
    And,
    Or,
    LParen,
    RParen,
    Eq,
    Ne,
}

impl View for Tok {
    type V = Token;

    closed spec fn view(&self) -> Token {
        match *self {
            Tok::Ident(s) => Token::Ident(s@),
            Tok::Str(s) => Token::Str(s@),
            Tok::Not => Token::Not,
            Tok::And => Token::And,
            Tok::Or => Token::Or,
            Tok::LParen => Token::LParen,
            Tok::RParen => Token::RParen,
            Tok::Eq => Token::Eq,
            Tok::Ne => Token::Ne,
        }
    }
}

spec fn tokens(v: Seq<Tok>) -> Seq<Token> {
    Seq::new(v.len(), |i: int| v[i]@)
}

/// Whether `c` can stand in a bare word.
pub open spec fn word_char(c: char) -> bool {
    text::alphanumeric(c) || c == '_' || c == '-'
}

/// Where the bare word that reaches `i` ends.
pub open spec fn word_end(b: Seq<char>, i: int) -> int
    decreases b.len() - i,
{
    if 0 <= i < b.len() && word_char(b[i]) {
        word_end(b, i + 1)
    } else {
        i
    }
}

/// Where the next quotation mark from `i` on stands, or the end.
pub open spec fn quote_end(b: Seq<char>, i: int) -> int
    decreases b.len() - i,
{
    if 0 <= i < b.len() && b[i] != '"' {
        quote_end(b, i + 1)
    } else {
        i
    }
}

/// What one step of the lexer finds: nothing, a token and where the text goes on, or
/// what is wrong.
pub enum Step {
    Space,
    Take(Token, int),
    Bad(Seq<char>),
}

/// What stands at `i`.
pub open spec fn step(b: Seq<char>, i: int) -> Step {
    let c = b[i];
    let next = if i + 1 < b.len() {
        Some(b[i + 1])
    } else {
        None
    };
    if text::space(c) {
        Step::Space
    } else if c == '(' {
        Step::Take(Token::LParen, i + 1)
    } else if c == ')' {
        Step::Take(Token::RParen, i + 1)
    } else if c == '!' {
        if next == Some('=') {
            Step::Take(Token::Ne, i + 2)
        } else {
            Step::Take(Token::Not, i + 1)
        }
    } else if c == '=' {
        Step::Take(Token::Eq, i + 1)
    } else if c == '&' {
        if next == Some('&') {
            Step::Take(Token::And, i + 2)
        } else {
            Step::Bad("expected `&&`"@)
        }
    } else if c == '|' {
        if next == Some('|') {
            Step::Take(Token::Or, i + 2)
        } else {
            Step::Bad("expected `||`"@)
        }
    } else if c == '"' {
        let e = quote_end(b, i + 1);
        if e < b.len() {
            Step::Take(Token::Str(b.subrange(i + 1, e)), e + 1)
        } else {
            Step::Bad("unterminated string"@)
        }
    } else if word_char(c) {
        let e = word_end(b, i);
        Step::Take(Token::Ident(b.subrange(i, e)), e)
    } else {
        Step::Bad("unexpected character `"@ + seq![c] + "`"@)
    }
}

/// The tokens from `i` on, or what is wrong with the first place that holds none.
pub open spec fn lexed(b: Seq<char>, i: int) -> Result<Seq<Token>, Seq<char>>
    decreases b.len() - i,
{
    if i >= b.len() {
        Ok(seq![])
    } else {
        match step(b, i) {
            Step::Space => lexed(b, i + 1),
            Step::Bad(m) => Err(m),
            Step::Take(t, n) => if n <= i || n > b.len() {
                Err(seq![])
            } else {
                match lexed(b, n) {
                    Ok(ts) => Ok(seq![t] + ts),
                    Err(m) => Err(m),
                }
            },
        }
    }
}

spec fn led(before: Seq<Token>, rest: Result<Seq<Token>, Seq<char>>) -> Result<Seq<Token>, Seq<char>> {
    match rest {
        Ok(ts) => Ok(before + ts),
        Err(m) => Err(m),
    }
}

proof fn led_by_one(before: Seq<Token>, b: Seq<char>, i: int, t: Token, n: int)
    requires
        0 <= i < b.len(),
        step(b, i) == Step::Take(t, n),
        i < n <= b.len(),
    ensures
        led(before, lexed(b, i)) == led(before.push(t), lexed(b, n)),
{
    match lexed(b, n) {
        Ok(ts) => {
            assert(before + (seq![t] + ts) =~= before.push(t) + ts);
        },
        Err(m) => {},
    }
}

fn lex_word(b: &Vec<char>, i: usize) -> (r: (String, usize))
    requires
        i < b@.len(),
        word_char(b@[i as int]),
    ensures
        i < r.1 <= b@.len(),
        r.1 == word_end(b@, i as int),
        r.0@ == b@.subrange(i as int, r.1 as int),
{
    let mut v = String::new();
    let mut j: usize = i;
    assert(v@ =~= b@.subrange(i as int, j as int));
    while j < b.len() && (b[j].is_alphanumeric() || b[j] == '_' || b[j] == '-')
        invariant
            i <= j <= b@.len(),
            word_end(b@, i as int) == word_end(b@, j as int),
            v@ == b@.subrange(i as int, j as int),
            j == i ==> i < b@.len() && word_char(b@[i as int]),
        decreases b@.len() - j,
    {
        v.push(b[j]);
        j += 1;
        assert(v@ =~= b@.subrange(i as int, j as int));
    }
    (v, j)
}

fn lex_quoted(b: &Vec<char>, i: usize) -> (r: (String, usize))
    requires
        i <= b@.len(),
    ensures
        i <= r.1 <= b@.len(),
        r.1 == quote_end(b@, i as int),
        r.0@ == b@.subrange(i as int, r.1 as int),
{
    let mut v = String::new();
    let mut j: usize = i;
    assert(v@ =~= b@.subrange(i as int, j as int));
    while j < b.len() && b[j] != '"'
        invariant
            i <= j <= b@.len(),
            quote_end(b@, i as int) == quote_end(b@, j as int),
            v@ == b@.subrange(i as int, j as int),
        decreases b@.len() - j,
    {
        v.push(b[j]);
        j += 1;
        assert(v@ =~= b@.subrange(i as int, j as int));
    }
    (v, j)
}

enum Lexed {
    Space,
    Take(Tok, usize),
    Bad(String),
}

fn lex_step(b: &Vec<char>, i: usize) -> (r: Lexed)
    requires
        i < b@.len(),
    ensures
        match r {
            Lexed::Space => step(b@, i as int) == Step::Space,
            Lexed::Take(t, n) => step(b@, i as int) == Step::Take(t@, n as int) && i < n <= b@.len(),
            Lexed::Bad(m) => step(b@, i as int) == Step::Bad(m@),
        },
{
    let c = b[i];
    let ghost len = b.len();
    if text::is_space(c) {
        Lexed::Space
    } else if c == '(' {
        Lexed::Take(Tok::LParen, i + 1)
    } else if c == ')' {
        Lexed::Take(Tok::RParen, i + 1)
    } else if c == '!' {
        if i + 1 < b.len() && b[i + 1] == '=' {
            Lexed::Take(Tok::Ne, i + 2)
        } else {
            Lexed::Take(Tok::Not, i + 1)
        }
    } else if c == '=' {
        Lexed::Take(Tok::Eq, i + 1)
    } else if c == '&' {
        if i + 1 < b.len() && b[i + 1] == '&' {
            Lexed::Take(Tok::And, i + 2)
        } else {
            Lexed::Bad("expected `&&`".to_owned())
        }
    } else if c == '|' {
        if i + 1 < b.len() && b[i + 1] == '|' {
            Lexed::Take(Tok::Or, i + 2)
        } else {
            Lexed::Bad("expected `||`".to_owned())
        }
    } else if c == '"' {
        let (v, e) = lex_quoted(b, i + 1);
        if e < b.len() {
            Lexed::Take(Tok::Str(v), e + 1)
        } else {
            Lexed::Bad("unterminated string".to_owned())
        }
    } else if c.is_alphanumeric() || c == '_' || c == '-' {
        let (v, e) = lex_word(b, i);
        Lexed::Take(Tok::Ident(v), e)
    } else {
        let mut m = "unexpected character `".to_owned();
        m.append(text::one(c).as_str());
        m.append("`");
        Lexed::Bad(m)
    }
}

fn lex(s: &str) -> (r: Result<Vec<Tok>, String>)
    ensures
        match r {
            Ok(v) => lexed(s@, 0) == Ok::<Seq<Token>, Seq<char>>(tokens(v@)),
            Err(m) => lexed(s@, 0) == Err::<Seq<Token>, Seq<char>>(m@),
        },
{
    let b = text::chars(s);
    let mut out: Vec<Tok> = Vec::new();
    let mut i: usize = 0;
    proof {
        match lexed(b@, 0) {
            Ok(ts) => {
                assert(tokens(out@) + ts =~= ts);
            },
            Err(m) => {},
        }
    }
    while i < b.len()
        invariant
            b@ == s@,
            i <= b@.len(),
            lexed(s@, 0) == led(tokens(out@), lexed(s@, i as int)),
        decreases b@.len() - i,
    {
        let ghost before = tokens(out@);
        match lex_step(&b, i) {
            Lexed::Space => {
                i += 1;
            },
            Lexed::Take(t, n) => {
                proof {
                    led_by_one(before, b@, i as int, t@, n as int);
                }
                let ghost token = t@;
                out.push(t);
                assert(tokens(out@) =~= before.push(token));
                i = n;
            },
            Lexed::Bad(m) => {
                return Err(m);
            },
        }
    }
    assert(tokens(out@) + seq![] =~= tokens(out@));
    Ok(out)
}

/// A parse: the expression and the token it ends before, or what is wrong.
pub type Parsed = Result<(Cond, int), Seq<char>>;

/// The token at `p` the way Rust's debug format shows an optional one.
pub open spec fn token_shown(t: Seq<Token>, p: int) -> Seq<char> {
    if 0 <= p < t.len() {
        match t[p] {
            Token::Not => "Some(Not)"@,
            Token::And => "Some(And)"@,
            Token::Or => "Some(Or)"@,
            Token::LParen => "Some(LParen)"@,
            Token::RParen => "Some(RParen)"@,
            Token::Eq => "Some(Eq)"@,
            _ => "Some(Ne)"@,
        }
    } else {
        "None"@
    }
}

/// The disjunction that starts at `p`.
pub open spec fn or_at(t: Seq<Token>, p: int) -> Parsed
    decreases t.len() - p, 4int,
{
    match and_at(t, p) {
        Ok((e, q)) => if p < q <= t.len() {
            or_more(t, q, e)
        } else {
            Err(seq![])
        },
        Err(m) => Err(m),
    }
}

/// `lhs` and every further `||` operand from `p` on.
pub open spec fn or_more(t: Seq<Token>, p: int, lhs: Cond) -> Parsed
    decreases t.len() - p, 3int,
{
    if 0 <= p < t.len() && t[p] == Token::Or {
        match and_at(t, p + 1) {
            Ok((e, q)) => if p < q <= t.len() {
                or_more(t, q, Cond::Or(Box::new(lhs), Box::new(e)))
            } else {
                Err(seq![])
            },
            Err(m) => Err(m),
        }
    } else {
        Ok((lhs, p))
    }
}

/// The conjunction that starts at `p`.
pub open spec fn and_at(t: Seq<Token>, p: int) -> Parsed
    decreases t.len() - p, 2int,
{
    match unary_at(t, p) {
        Ok((e, q)) => if p < q <= t.len() {
            and_more(t, q, e)
        } else {
            Err(seq![])
        },
        Err(m) => Err(m),
    }
}

/// `lhs` and every further `&&` operand from `p` on.
pub open spec fn and_more(t: Seq<Token>, p: int, lhs: Cond) -> Parsed
    decreases t.len() - p, 2int,
{
    if 0 <= p < t.len() && t[p] == Token::And {
        match unary_at(t, p + 1) {
            Ok((e, q)) => if p < q <= t.len() {
                and_more(t, q, Cond::And(Box::new(lhs), Box::new(e)))
            } else {
                Err(seq![])
            },
            Err(m) => Err(m),
        }
    } else {
        Ok((lhs, p))
    }
}

/// The operand that starts at `p`, with the `!`s in front of it.
pub open spec fn unary_at(t: Seq<Token>, p: int) -> Parsed
    decreases t.len() - p, 1int,
{
    if 0 <= p < t.len() && t[p] == Token::Not {
        match unary_at(t, p + 1) {
            Ok((e, q)) => Ok((Cond::Not(Box::new(e)), q)),
            Err(m) => Err(m),
        }
    } else {
        primary_at(t, p)
    }
}

/// The bracketed expression, comparison, literal or symbol that starts at `p`.
pub open spec fn primary_at(t: Seq<Token>, p: int) -> Parsed
    decreases t.len() - p, 0int,
{
    if 0 <= p < t.len() && t[p] == Token::LParen {
        match or_at(t, p + 1) {
            Ok((e, q)) => if 0 <= q < t.len() && t[q] == Token::RParen {
                Ok((e, q + 1))
            } else {
                Err("expected `)`"@)
            },
            Err(m) => Err(m),
        }
    } else if 0 <= p < t.len() && t[p] is Ident {
        let name = t[p]->Ident_0;
        if p + 1 < t.len() && (t[p + 1] == Token::Eq || t[p + 1] == Token::Ne) {
            if p + 2 < t.len() && (t[p + 2] is Ident || t[p + 2] is Str) {
                let rhs = if t[p + 2] is Ident {
                    t[p + 2]->Ident_0
                } else {
                    t[p + 2]->Str_0
                };
                Ok((
                    if t[p + 1] == Token::Ne {
                        Cond::Ne(name, rhs)
                    } else {
                        Cond::Eq(name, rhs)
                    },
                    p + 3,
                ))
            } else {
                Err("expected a value after comparison"@)
            }
        } else {
            // A bare y/n/m is a literal, not a symbol reference.
            Ok((
                match tri_of(name) {
                    Some(v) => Cond::Const(v),
                    None => Cond::Sym(name),
                },
                p + 1,
            ))
        }
    } else if 0 <= p < t.len() && t[p] is Str {
        Ok((Cond::Sym(t[p]->Str_0), p + 1))
    } else {
        Err("unexpected token in expression: "@ + token_shown(t, p))
    }
}

/// What a text says as a condition, or what is wrong with it.
pub open spec fn condition(s: Seq<char>) -> Result<Cond, Seq<char>> {
    match lexed(s, 0) {
        Err(m) => Err(m),
        Ok(t) => match or_at(t, 0) {
            Err(m) => Err(m),
            Ok((e, q)) => if q == t.len() {
                Ok(e)
            } else {
                Err("trailing tokens in expression `"@ + s + "`"@)
            },
        },
    }
}

spec fn meets(r: Result<(Expr, usize), String>, want: Parsed, p: usize, len: nat) -> bool {
    match r {
        Ok((e, q)) => want == Ok::<(Cond, int), Seq<char>>((e@, q as int)) && p < q <= len,
        Err(m) => want == Err::<(Cond, int), Seq<char>>(m@),
    }
}

fn parse_or(t: &Vec<Tok>, p: usize) -> (r: Result<(Expr, usize), String>)
    requires
        p <= t@.len(),
    ensures
        meets(r, or_at(tokens(t@), p as int), p, t@.len()),
    decreases t@.len() - p, 4int,
{
    let (mut lhs, mut q) = match parse_and(t, p) {
        Ok(x) => x,
        Err(m) => return Err(m),
    };
    while q < t.len() && matches!(t[q], Tok::Or)
        invariant
            p < q <= t@.len(),
            or_at(tokens(t@), p as int) == or_more(tokens(t@), q as int, lhs@),
        decreases t@.len() - q,
    {
        assert(tokens(t@)[q as int] == t@[q as int]@);
        let (rhs, n) = match parse_and(t, q + 1) {
            Ok(x) => x,
            Err(m) => return Err(m),
        };
        lhs = Expr::Or(Box::new(lhs), Box::new(rhs));
        q = n;
    }
    proof {
        if q < t@.len() {
            assert(tokens(t@)[q as int] == t@[q as int]@);
        }
    }
    Ok((lhs, q))
}

fn parse_and(t: &Vec<Tok>, p: usize) -> (r: Result<(Expr, usize), String>)
    requires
        p <= t@.len(),
    ensures
        meets(r, and_at(tokens(t@), p as int), p, t@.len()),
    decreases t@.len() - p, 2int,
{
    let (mut lhs, mut q) = match parse_unary(t, p) {
        Ok(x) => x,
        Err(m) => return Err(m),
    };
    while q < t.len() && matches!(t[q], Tok::And)
        invariant
            p < q <= t@.len(),
            and_at(tokens(t@), p as int) == and_more(tokens(t@), q as int, lhs@),
        decreases t@.len() - q,
    {
        assert(tokens(t@)[q as int] == t@[q as int]@);
        let (rhs, n) = match parse_unary(t, q + 1) {
            Ok(x) => x,
            Err(m) => return Err(m),
        };
        lhs = Expr::And(Box::new(lhs), Box::new(rhs));
        q = n;
    }
    proof {
        if q < t@.len() {
            assert(tokens(t@)[q as int] == t@[q as int]@);
        }
    }
    Ok((lhs, q))
}

fn parse_unary(t: &Vec<Tok>, p: usize) -> (r: Result<(Expr, usize), String>)
    requires
        p <= t@.len(),
    ensures
        meets(r, unary_at(tokens(t@), p as int), p, t@.len()),
    decreases t@.len() - p, 1int,
{
    proof {
        if p < t@.len() {
            assert(tokens(t@)[p as int] == t@[p as int]@);
        }
    }
    if p < t.len() && matches!(t[p], Tok::Not) {
        match parse_unary(t, p + 1) {
            Ok((e, q)) => Ok((Expr::Not(Box::new(e)), q)),
            Err(m) => Err(m),
        }
    } else {
        parse_primary(t, p)
    }
}

fn parse_primary(t: &Vec<Tok>, p: usize) -> (r: Result<(Expr, usize), String>)
    requires
        p <= t@.len(),
    ensures
        meets(r, primary_at(tokens(t@), p as int), p, t@.len()),
    decreases t@.len() - p, 0int,
{
    let ghost k = tokens(t@);
    assert(forall|i: int| 0 <= i < t@.len() ==> k[i] == t@[i]@);
    if p >= t.len() {
        let mut m = "unexpected token in expression: ".to_owned();
        m.append("None");
        return Err(m);
    }
    match &t[p] {
        Tok::LParen => {
            let (e, q) = match parse_or(t, p + 1) {
                Ok(x) => x,
                Err(m) => return Err(m),
            };
            if q < t.len() && matches!(t[q], Tok::RParen) {
                Ok((e, q + 1))
            } else {
                Err("expected `)`".to_owned())
            }
        },
        Tok::Ident(name) => {
            if p + 1 < t.len() && (matches!(t[p + 1], Tok::Eq) || matches!(t[p + 1], Tok::Ne)) {
                if p + 2 >= t.len() {
                    return Err("expected a value after comparison".to_owned());
                }
                let rhs = match &t[p + 2] {
                    Tok::Ident(v) => v.clone(),
                    Tok::Str(v) => v.clone(),
                    _ => return Err("expected a value after comparison".to_owned()),
                };
                if matches!(t[p + 1], Tok::Ne) {
                    Ok((Expr::Ne(name.clone(), rhs), p + 3))
                } else {
                    Ok((Expr::Eq(name.clone(), rhs), p + 3))
                }
            } else {
                match Tri::from_str(name.as_str()) {
                    Some(v) => Ok((Expr::Const(v), p + 1)),
                    None => Ok((Expr::Sym(name.clone()), p + 1)),
                }
            }
        },
        Tok::Str(v) => Ok((Expr::Sym(v.clone()), p + 1)),
        other => {
            let mut m = "unexpected token in expression: ".to_owned();
            m.append(
                match other {
                    Tok::Not => "Some(Not)",
                    Tok::And => "Some(And)",
                    Tok::Or => "Some(Or)",
                    Tok::RParen => "Some(RParen)",
                    Tok::Eq => "Some(Eq)",
                    _ => "Some(Ne)",
                },
            );
            Err(m)
        },
    }
}

/// The condition a text writes.
pub fn parse(s: &str) -> (r: Result<Expr, String>)
    ensures
        match r {
            Ok(e) => condition(s@) == Ok::<Cond, Seq<char>>(e@),
            Err(m) => condition(s@) == Err::<Cond, Seq<char>>(m@),
        },
{
    let toks = match lex(s) {
        Ok(t) => t,
        Err(m) => return Err(m),
    };
    match parse_or(&toks, 0) {
        Err(m) => Err(m),
        Ok((e, q)) => {
            if q != toks.len() {
                let mut m = "trailing tokens in expression `".to_owned();
                m.append(s);
                m.append("`");
                return Err(m);
            }
            Ok(e)
        },
    }
}

} // verus!
