//! A value or an expression that is written out reads back as itself.

use vstd::prelude::*;

use super::expr;
use super::expr::{Cond, Step, Token, Tri};
use super::parse;
use super::{Kind, Value};
use crate::text;

verus! {

/// Whether a name is one that the lexer takes as a whole.
pub open spec fn is_word(s: Seq<char>) -> bool {
    s.len() > 0 && !text::space(s[0]) && forall|i: int| 0 <= i < s.len() ==> expr::word_char(#[trigger] s[i])
}

/// Whether every name in an expression, and every value that one is compared with, is a word. What
/// stands by itself is a symbol only if it is not one of the three values.
pub open spec fn is_wordy(e: Cond) -> bool
    decreases e,
{
    match e {
        Cond::Const(_) => true,
        Cond::Sym(s) => is_word(s) && expr::tri_of(s) is None,
        Cond::Not(a) => is_wordy(*a),
        Cond::And(a, b) => is_wordy(*a) && is_wordy(*b),
        Cond::Or(a, b) => is_wordy(*a) && is_wordy(*b),
        Cond::Eq(s, v) => is_word(s) && is_word(v),
        Cond::Ne(s, v) => is_word(s) && is_word(v),
    }
}

/// The tokens of an expression that is written out.
pub open spec fn spelled(e: Cond) -> Seq<Token>
    decreases e,
{
    match e {
        Cond::Const(t) => seq![Token::Ident(expr::tri_text(t))],
        Cond::Sym(s) => seq![Token::Ident(s)],
        Cond::Not(a) => seq![Token::Not] + spelled(*a),
        Cond::And(a, b) => seq![Token::LParen] + spelled(*a) + seq![Token::And] + spelled(*b) + seq![Token::RParen],
        Cond::Or(a, b) => seq![Token::LParen] + spelled(*a) + seq![Token::Or] + spelled(*b) + seq![Token::RParen],
        Cond::Eq(s, v) => seq![Token::Ident(s), Token::Eq, Token::Ident(v)],
        Cond::Ne(s, v) => seq![Token::Ident(s), Token::Ne, Token::Ident(v)],
    }
}

/// `rest` behind the tokens of `before`.
spec fn led(before: Seq<Token>, rest: Result<Seq<Token>, Seq<char>>) -> Result<Seq<Token>, Seq<char>> {
    match rest {
        Ok(ts) => Ok(before + ts),
        Err(m) => Err(m),
    }
}

/// Whether the text from `i` to `j` is read as some tokens.
spec fn reads(b: Seq<char>, i: int, j: int, ts: Seq<Token>) -> bool {
    0 <= i <= j <= b.len() && expr::lexed(b, i) == led(ts, expr::lexed(b, j))
}

proof fn readings_join(b: Seq<char>, i: int, j: int, k: int, x: Seq<Token>, y: Seq<Token>)
    requires
        reads(b, i, j, x),
        reads(b, j, k, y),
    ensures
        reads(b, i, k, x + y),
{
    if let Ok(ts) = expr::lexed(b, k) {
        assert(x + (y + ts) =~= (x + y) + ts);
    }
}

proof fn token_reads(b: Seq<char>, i: int, t: Token, n: int)
    requires
        0 <= i < b.len(),
        expr::step(b, i) == Step::Take(t, n),
        i < n <= b.len(),
    ensures
        reads(b, i, n, seq![t]),
{
}

proof fn space_reads(b: Seq<char>, i: int)
    requires
        0 <= i < b.len(),
        b[i] == ' ',
    ensures
        reads(b, i, i + 1, seq![]),
{
    if let Ok(ts) = expr::lexed(b, i + 1) {
        assert(Seq::<Token>::empty() + ts =~= ts);
    }
}

/// Whether a word that reaches `i` ends there.
spec fn ends_at(b: Seq<char>, i: int) -> bool {
    i == b.len() || (0 <= i < b.len() && !expr::word_char(b[i]))
}

proof fn words_end(b: Seq<char>, i: int, j: int)
    requires
        0 <= i <= j <= b.len(),
        forall|k: int| i <= k < j ==> expr::word_char(#[trigger] b[k]),
        ends_at(b, j),
    ensures
        expr::word_end(b, i) == j,
    decreases j - i,
{
    if i < j {
        assert(expr::word_char(b[i]));
        words_end(b, i + 1, j);
    }
}

proof fn word_reads(b: Seq<char>, i: int, s: Seq<char>)
    requires
        0 <= i,
        i + s.len() <= b.len(),
        b.subrange(i, i + s.len()) == s,
        is_word(s),
        ends_at(b, i + s.len()),
    ensures
        reads(b, i, i + s.len(), seq![Token::Ident(s)]),
{
    let j = i + s.len();
    assert forall|k: int| i <= k < j implies expr::word_char(#[trigger] b[k]) by {
        assert(b[k] == b.subrange(i, j)[k - i]);
    }
    words_end(b, i, j);
    assert(b[i] == s[0]);
    assert(expr::word_char(b[i]) && !text::space(b[i]));
    token_reads(b, i, Token::Ident(s), j);
}

proof fn values_are_words(t: expr::Tri)
    ensures
        is_word(expr::tri_text(t)),
        expr::tri_of(expr::tri_text(t)) == Some(t),
{
    expr::tri_reads_back(t);
}

proof fn shown_begins(e: Cond)
    requires
        is_wordy(e),
    ensures
        expr::shown(e).len() > 0,
        expr::shown(e)[0] != '=',
    decreases e,
{
    reveal_strlit("!");
    reveal_strlit("(");
    match e {
        Cond::Const(t) => {
            values_are_words(t);
            assert(expr::word_char(expr::tri_text(t)[0]));
        },
        Cond::Sym(s) => {
            assert(expr::word_char(s[0]));
        },
        Cond::Eq(s, v) => {
            assert(expr::word_char(s[0]));
        },
        Cond::Ne(s, v) => {
            assert(expr::word_char(s[0]));
        },
        _ => {},
    }
}

/// Whether `s` stands in `b` at `i`.
spec fn stands(b: Seq<char>, i: int, s: Seq<char>) -> bool {
    0 <= i && i + s.len() <= b.len() && b.subrange(i, i + s.len()) == s
}

proof fn parts_stand(b: Seq<char>, i: int, x: Seq<char>, y: Seq<char>)
    requires
        stands(b, i, x + y),
    ensures
        stands(b, i, x),
        stands(b, i + x.len(), y),
{
    assert(b.subrange(i, i + x.len()) =~= (x + y).subrange(0, x.len() as int));
    assert((x + y).subrange(0, x.len() as int) =~= x);
    assert(b.subrange(i + x.len(), i + x.len() + y.len()) =~= (x + y).subrange(x.len() as int, (x + y).len() as int));
    assert((x + y).subrange(x.len() as int, (x + y).len() as int) =~= y);
}

/// An operator of two characters between spaces.
proof fn operator_reads(b: Seq<char>, i: int, c: char, d: char, t: Token)
    requires
        0 <= i,
        i + 4 <= b.len(),
        b[i] == ' ',
        b[i + 1] == c,
        b[i + 2] == d,
        b[i + 3] == ' ',
        expr::step(b, i + 1) == Step::Take(t, i + 3),
    ensures
        reads(b, i, i + 4, seq![t]),
{
    space_reads(b, i);
    token_reads(b, i + 1, t, i + 3);
    readings_join(b, i, i + 1, i + 3, seq![], seq![t]);
    space_reads(b, i + 3);
    readings_join(b, i, i + 3, i + 4, Seq::<Token>::empty() + seq![t], seq![]);
    assert(Seq::<Token>::empty() + seq![t] + Seq::<Token>::empty() =~= seq![t]);
}

proof fn compared_reads(b: Seq<char>, i: int, s: Seq<char>, v: Seq<char>, equal: bool)
    requires
        is_word(s),
        is_word(v),
        stands(b, i, if equal { s + " = "@ + v } else { s + " != "@ + v }),
        ends_at(b, i + (if equal { s + " = "@ + v } else { s + " != "@ + v }).len()),
    ensures
        reads(
            b,
            i,
            i + (if equal { s + " = "@ + v } else { s + " != "@ + v }).len(),
            seq![Token::Ident(s), if equal { Token::Eq } else { Token::Ne }, Token::Ident(v)],
        ),
{
    reveal_strlit(" = ");
    reveal_strlit(" != ");
    let op = if equal { " = "@ } else { " != "@ };
    let t = if equal { Token::Eq } else { Token::Ne };
    parts_stand(b, i, s + op, v);
    parts_stand(b, i, s, op);
    let j = i + s.len();
    assert(b.subrange(j, j + op.len())[0] == b[j]);
    assert(b[j] == ' ');
    assert(b.subrange(j, j + op.len())[1] == b[j + 1]);
    assert(b.subrange(j, j + op.len())[2] == b[j + 2]);
    word_reads(b, i, s);
    if equal {
        space_reads(b, j);
        token_reads(b, j + 1, t, j + 2);
        readings_join(b, j, j + 1, j + 2, seq![], seq![t]);
        space_reads(b, j + 2);
        readings_join(b, j, j + 2, j + 3, Seq::<Token>::empty() + seq![t], seq![]);
        assert(Seq::<Token>::empty() + seq![t] + Seq::<Token>::empty() =~= seq![t]);
    } else {
        assert(b.subrange(j, j + op.len())[3] == b[j + 3]);
        operator_reads(b, j, '!', '=', t);
    }
    readings_join(b, i, j, j + op.len(), seq![Token::Ident(s)], seq![t]);
    let k = j + op.len();
    assert((s + op).len() + i == k);
    word_reads(b, k, v);
    readings_join(b, i, k, k + v.len(), seq![Token::Ident(s)] + seq![t], seq![Token::Ident(v)]);
    assert(seq![Token::Ident(s)] + seq![t] + seq![Token::Ident(v)] =~= seq![Token::Ident(s), t, Token::Ident(v)]);
}

proof fn joined_reads(b: Seq<char>, i: int, e: Cond)
    requires
        e is And || e is Or,
        is_wordy(e),
        stands(b, i, expr::shown(e)),
    ensures
        reads(b, i, i + expr::shown(e).len(), spelled(e)),
    decreases e, 1int,
{
    let both = e is And;
    let (x, y) = match e {
        Cond::And(x, y) => (*x, *y),
        Cond::Or(x, y) => (*x, *y),
        _ => (e, e),
    };
    reveal_strlit("(");
    reveal_strlit(")");
    reveal_strlit(" && ");
    reveal_strlit(" || ");
    let op = if both { " && "@ } else { " || "@ };
    let t = if both { Token::And } else { Token::Or };
    let (p, q) = (expr::shown(x), expr::shown(y));
    parts_stand(b, i, "("@ + p + op + q, ")"@);
    parts_stand(b, i, "("@ + p + op, q);
    parts_stand(b, i, "("@ + p, op);
    parts_stand(b, i, "("@, p);
    let j = i + 1;
    let k = j + p.len();
    let l = k + 4;
    let end = l + q.len();
    assert(b.subrange(i, i + 1)[0] == b[i]);
    assert(("("@ + p).len() + i == k);
    assert(("("@ + p + op).len() + i == l);
    assert(("("@ + p + op + q).len() + i == end);
    assert(b.subrange(k, k + 4)[0] == b[k]);
    assert(b.subrange(k, k + 4)[1] == b[k + 1]);
    assert(b.subrange(k, k + 4)[2] == b[k + 2]);
    assert(b.subrange(k, k + 4)[3] == b[k + 3]);
    assert(b.subrange(end, end + 1)[0] == b[end]);
    token_reads(b, i, Token::LParen, j);
    written_reads(b, j, x);
    readings_join(b, i, j, k, seq![Token::LParen], spelled(x));
    if both {
        operator_reads(b, k, '&', '&', t);
    } else {
        operator_reads(b, k, '|', '|', t);
    }
    readings_join(b, i, k, l, seq![Token::LParen] + spelled(x), seq![t]);
    written_reads(b, l, y);
    readings_join(b, i, l, end, seq![Token::LParen] + spelled(x) + seq![t], spelled(y));
    token_reads(b, end, Token::RParen, end + 1);
    readings_join(b, i, end, end + 1, seq![Token::LParen] + spelled(x) + seq![t] + spelled(y), seq![Token::RParen]);
}

proof fn written_reads(b: Seq<char>, i: int, e: Cond)
    requires
        is_wordy(e),
        stands(b, i, expr::shown(e)),
        ends_at(b, i + expr::shown(e).len()),
    ensures
        reads(b, i, i + expr::shown(e).len(), spelled(e)),
    decreases e, 2int,
{
    match e {
        Cond::Const(t) => {
            values_are_words(t);
            word_reads(b, i, expr::tri_text(t));
        },
        Cond::Sym(s) => {
            word_reads(b, i, s);
        },
        Cond::Not(a) => {
            reveal_strlit("!");
            let p = expr::shown(*a);
            shown_begins(*a);
            parts_stand(b, i, "!"@, p);
            assert(b.subrange(i, i + 1)[0] == b[i]);
            assert(b.subrange(i + 1, i + 1 + p.len())[0] == b[i + 1]);
            token_reads(b, i, Token::Not, i + 1);
            written_reads(b, i + 1, *a);
            readings_join(b, i, i + 1, i + 1 + p.len(), seq![Token::Not], spelled(*a));
        },
        Cond::And(_, _) => {
            joined_reads(b, i, e);
        },
        Cond::Or(_, _) => {
            joined_reads(b, i, e);
        },
        Cond::Eq(s, v) => {
            compared_reads(b, i, s, v, true);
        },
        Cond::Ne(s, v) => {
            compared_reads(b, i, s, v, false);
        },
    }
}

/// Whether the tokens of `e` stand at `p`, and no comparison follows them.
spec fn spelled_at(t: Seq<Token>, p: int, e: Cond) -> bool {
    let q = p + spelled(e).len();
    &&& 0 <= p
    &&& q <= t.len()
    &&& t.subrange(p, q) == spelled(e)
    &&& q < t.len() ==> t[q] != Token::Eq && t[q] != Token::Ne
}

proof fn spelled_is_some(e: Cond)
    ensures
        spelled(e).len() > 0,
{
}

/// The tokens between brackets stand where they should.
proof fn bracketed_stand(t: Seq<Token>, p: int, x: Cond, y: Cond, op: Token)
    requires
        op == Token::And || op == Token::Or,
        0 <= p,
        p + spelled(x).len() + spelled(y).len() + 3 <= t.len(),
        t.subrange(p, p + spelled(x).len() + spelled(y).len() + 3) == seq![Token::LParen] + spelled(x) + seq![op]
            + spelled(y) + seq![Token::RParen],
    ensures
        t[p] == Token::LParen,
        spelled_at(t, p + 1, x),
        t[p + 1 + spelled(x).len()] == op,
        spelled_at(t, p + 2 + spelled(x).len(), y),
        t[p + 2 + spelled(x).len() + spelled(y).len()] == Token::RParen,
{
    let (a, b) = (spelled(x), spelled(y));
    let all = seq![Token::LParen] + a + seq![op] + b + seq![Token::RParen];
    let n = a.len() + b.len() + 3;
    assert forall|k: int| 0 <= k < n implies #[trigger] t[p + k] == all[k] by {
        assert(t.subrange(p, p + n)[k] == t[p + k]);
    }
    assert(t[p + 0] == all[0]);
    assert(t[p + (1 + a.len())] == all[1 + a.len() as int]);
    assert(t[p + (2 + a.len() + b.len())] == all[2 + a.len() + b.len() as int]);
    assert(t.subrange(p + 1, p + 1 + a.len()) =~= a) by {
        assert forall|k: int| 0 <= k < a.len() implies t.subrange(p + 1, p + 1 + a.len())[k] == a[k] by {
            assert(t[p + (1 + k)] == all[1 + k]);
        }
    }
    assert(t.subrange(p + 2 + a.len(), p + 2 + a.len() + b.len()) =~= b) by {
        assert forall|k: int| 0 <= k < b.len() implies t.subrange(p + 2 + a.len(), p + 2 + a.len() + b.len())[k]
            == b[k] by {
            assert(t[p + (2 + a.len() + k)] == all[2 + a.len() + k]);
        }
    }
}

proof fn spelled_parses(t: Seq<Token>, p: int, e: Cond)
    requires
        is_wordy(e),
        spelled_at(t, p, e),
    ensures
        expr::unary_at(t, p) == Ok::<(Cond, int), Seq<char>>((e, p + spelled(e).len())),
    decreases e,
{
    let q = p + spelled(e).len();
    spelled_is_some(e);
    assert(t.subrange(p, q)[0] == t[p]);
    match e {
        Cond::Const(v) => {
            values_are_words(v);
            assert(t[p] == Token::Ident(expr::tri_text(v)));
            assert(expr::primary_at(t, p) == Ok::<(Cond, int), Seq<char>>((e, p + 1)));
        },
        Cond::Sym(s) => {
            assert(t[p] == Token::Ident(s));
            assert(expr::primary_at(t, p) == Ok::<(Cond, int), Seq<char>>((e, p + 1)));
        },
        Cond::Not(a) => {
            assert(t[p] == Token::Not);
            assert(t.subrange(p + 1, q) =~= spelled(e).subrange(1, spelled(e).len() as int));
            assert(spelled(e).subrange(1, spelled(e).len() as int) =~= spelled(*a));
            spelled_parses(t, p + 1, *a);
        },
        Cond::And(x, y) => {
            assert(q == p + spelled(*x).len() + spelled(*y).len() + 3);
            bracketed_stand(t, p, *x, *y, Token::And);
            spelled_parses(t, p + 1, *x);
            spelled_parses(t, p + 2 + spelled(*x).len(), *y);
            spelled_is_some(*x);
            spelled_is_some(*y);
            let m = p + 1 + spelled(*x).len();
            let r = m + 1 + spelled(*y).len();
            let both = Cond::And(x, y);
            assert(expr::and_more(t, r, both) == Ok::<(Cond, int), Seq<char>>((both, r)));
            assert(expr::and_more(t, m, *x) == Ok::<(Cond, int), Seq<char>>((both, r)));
            assert(expr::and_at(t, p + 1) == Ok::<(Cond, int), Seq<char>>((both, r)));
            assert(expr::or_more(t, r, both) == Ok::<(Cond, int), Seq<char>>((both, r)));
            assert(expr::or_at(t, p + 1) == Ok::<(Cond, int), Seq<char>>((both, r)));
            assert(expr::primary_at(t, p) == Ok::<(Cond, int), Seq<char>>((both, r + 1)));
        },
        Cond::Or(x, y) => {
            assert(q == p + spelled(*x).len() + spelled(*y).len() + 3);
            bracketed_stand(t, p, *x, *y, Token::Or);
            spelled_parses(t, p + 1, *x);
            spelled_parses(t, p + 2 + spelled(*x).len(), *y);
            spelled_is_some(*x);
            spelled_is_some(*y);
            let m = p + 1 + spelled(*x).len();
            let r = m + 1 + spelled(*y).len();
            let either = Cond::Or(x, y);
            assert(expr::and_more(t, m, *x) == Ok::<(Cond, int), Seq<char>>((*x, m)));
            assert(expr::and_at(t, p + 1) == Ok::<(Cond, int), Seq<char>>((*x, m)));
            assert(expr::and_more(t, r, *y) == Ok::<(Cond, int), Seq<char>>((*y, r)));
            assert(expr::and_at(t, m + 1) == Ok::<(Cond, int), Seq<char>>((*y, r)));
            assert(expr::or_more(t, r, either) == Ok::<(Cond, int), Seq<char>>((either, r)));
            assert(expr::or_more(t, m, *x) == Ok::<(Cond, int), Seq<char>>((either, r)));
            assert(expr::or_at(t, p + 1) == Ok::<(Cond, int), Seq<char>>((either, r)));
            assert(expr::primary_at(t, p) == Ok::<(Cond, int), Seq<char>>((either, r + 1)));
        },
        Cond::Eq(s, v) => {
            assert(t.subrange(p, q)[1] == t[p + 1]);
            assert(t.subrange(p, q)[2] == t[p + 2]);
            assert(expr::primary_at(t, p) == Ok::<(Cond, int), Seq<char>>((e, p + 3)));
        },
        Cond::Ne(s, v) => {
            assert(t.subrange(p, q)[1] == t[p + 1]);
            assert(t.subrange(p, q)[2] == t[p + 2]);
            assert(expr::primary_at(t, p) == Ok::<(Cond, int), Seq<char>>((e, p + 3)));
        },
    }
}

/// An expression that is written out reads back as itself, where its names are words.
pub proof fn expressions_read_back(e: Cond)
    requires
        is_wordy(e),
    ensures
        expr::condition(expr::shown(e)) == Ok::<Cond, Seq<char>>(e),
{
    let b = expr::shown(e);
    let t = spelled(e);
    assert(b.subrange(0, b.len() as int) =~= b);
    written_reads(b, 0, e);
    assert(expr::lexed(b, b.len() as int) == Ok::<Seq<Token>, Seq<char>>(seq![]));
    assert(t + Seq::<Token>::empty() =~= t);
    assert(t.subrange(0, t.len() as int) =~= t);
    spelled_is_some(e);
    spelled_parses(t, 0, e);
    let n = t.len() as int;
    assert(expr::and_more(t, n, e) == Ok::<(Cond, int), Seq<char>>((e, n)));
    assert(expr::or_more(t, n, e) == Ok::<(Cond, int), Seq<char>>((e, n)));
}

/// Whether the tokens are those of a text without quotation marks.
spec fn bare(t: Seq<Token>) -> bool {
    forall|i: int| 0 <= i < t.len() ==> !(#[trigger] t[i] is Str) && (t[i] is Ident ==> is_word(t[i]->Ident_0))
}

proof fn words_are_of_word_chars(b: Seq<char>, i: int)
    requires
        0 <= i <= b.len(),
    ensures
        i <= expr::word_end(b, i) <= b.len(),
        forall|k: int| i <= k < expr::word_end(b, i) ==> expr::word_char(#[trigger] b[k]),
    decreases b.len() - i,
{
    if i < b.len() && expr::word_char(b[i]) {
        words_are_of_word_chars(b, i + 1);
    }
}

proof fn unquoted_text_is_bare(b: Seq<char>, i: int)
    requires
        0 <= i,
        !b.contains('"'),
        expr::lexed(b, i) is Ok,
    ensures
        bare(expr::lexed(b, i)->Ok_0),
    decreases b.len() - i,
{
    if i < b.len() {
        match expr::step(b, i) {
            Step::Space => unquoted_text_is_bare(b, i + 1),
            Step::Bad(m) => {},
            Step::Take(t, n) => {
                unquoted_text_is_bare(b, n);
                assert(b.contains(b[i]));
                words_are_of_word_chars(b, i);
                if t is Ident {
                    let w = t->Ident_0;
                    assert(w == b.subrange(i, n));
                    assert forall|k: int| 0 <= k < w.len() implies expr::word_char(#[trigger] w[k]) by {
                        assert(w[k] == b[i + k]);
                    }
                    assert(w[0] == b[i]);
                    assert(is_word(w));
                }
                let ts = expr::lexed(b, n)->Ok_0;
                let all = seq![t] + ts;
                assert forall|k: int| 0 <= k < all.len() implies !(#[trigger] all[k] is Str) && (all[k] is Ident
                    ==> is_word(all[k]->Ident_0)) by {
                    if k > 0 {
                        assert(all[k] == ts[k - 1]);
                    }
                }
            },
        }
    }
}

/// Whether what is parsed, if anything is, has words for its names.
spec fn gives_words(r: expr::Parsed) -> bool {
    r is Ok ==> is_wordy(r->Ok_0.0)
}

proof fn or_gives_words(t: Seq<Token>, p: int)
    requires
        bare(t),
    ensures
        gives_words(expr::or_at(t, p)),
    decreases t.len() - p, 4int,
{
    and_gives_words(t, p);
    if let Ok((e, q)) = expr::and_at(t, p) {
        if p < q <= t.len() {
            more_ors_give_words(t, q, e);
        }
    }
}

proof fn more_ors_give_words(t: Seq<Token>, p: int, lhs: Cond)
    requires
        bare(t),
        is_wordy(lhs),
    ensures
        gives_words(expr::or_more(t, p, lhs)),
    decreases t.len() - p, 3int,
{
    if 0 <= p < t.len() && t[p] == Token::Or {
        and_gives_words(t, p + 1);
        if let Ok((e, q)) = expr::and_at(t, p + 1) {
            if p < q <= t.len() {
                more_ors_give_words(t, q, Cond::Or(Box::new(lhs), Box::new(e)));
            }
        }
    }
}

proof fn and_gives_words(t: Seq<Token>, p: int)
    requires
        bare(t),
    ensures
        gives_words(expr::and_at(t, p)),
    decreases t.len() - p, 2int,
{
    unary_gives_words(t, p);
    if let Ok((e, q)) = expr::unary_at(t, p) {
        if p < q <= t.len() {
            more_ands_give_words(t, q, e);
        }
    }
}

proof fn more_ands_give_words(t: Seq<Token>, p: int, lhs: Cond)
    requires
        bare(t),
        is_wordy(lhs),
    ensures
        gives_words(expr::and_more(t, p, lhs)),
    decreases t.len() - p, 2int,
{
    if 0 <= p < t.len() && t[p] == Token::And {
        unary_gives_words(t, p + 1);
        if let Ok((e, q)) = expr::unary_at(t, p + 1) {
            if p < q <= t.len() {
                more_ands_give_words(t, q, Cond::And(Box::new(lhs), Box::new(e)));
            }
        }
    }
}

proof fn unary_gives_words(t: Seq<Token>, p: int)
    requires
        bare(t),
    ensures
        gives_words(expr::unary_at(t, p)),
    decreases t.len() - p, 1int,
{
    if 0 <= p < t.len() && t[p] == Token::Not {
        unary_gives_words(t, p + 1);
    } else {
        primary_gives_words(t, p);
    }
}

proof fn primary_gives_words(t: Seq<Token>, p: int)
    requires
        bare(t),
    ensures
        gives_words(expr::primary_at(t, p)),
    decreases t.len() - p, 0int,
{
    if 0 <= p < t.len() {
        if t[p] == Token::LParen {
            or_gives_words(t, p + 1);
        } else if t[p] is Ident && p + 2 < t.len() {
            assert(!(t[p + 2] is Str));
        }
    }
}

/// What a text without quotation marks parses as has words for its names.
pub proof fn bare_text_gives_words(s: Seq<char>)
    requires
        !s.contains('"'),
        expr::condition(s) is Ok,
    ensures
        is_wordy(expr::condition(s)->Ok_0),
{
    unquoted_text_is_bare(s, 0);
    or_gives_words(expr::lexed(s, 0)->Ok_0, 0);
}

/// What a text without quotation marks parses as, written out, parses as the same again.
pub proof fn parsed_text_reads_back(s: Seq<char>)
    requires
        !s.contains('"'),
        expr::condition(s) is Ok,
    ensures
        expr::condition(expr::shown(expr::condition(s)->Ok_0)) == expr::condition(s),
{
    bare_text_gives_words(s);
    expressions_read_back(expr::condition(s)->Ok_0);
}

/// What `digits` writes is digits, and the number they are.
proof fn digits_read_back(n: nat, radix: nat)
    requires
        2 <= radix <= 16,
    ensures
        text::digits(n, radix).len() > 0,
        forall|i: int| 0 <= i < text::digits(n, radix).len() ==> text::digit(#[trigger] text::digits(n, radix)[i]) >= 0,
        text::numeral(text::digits(n, radix), radix as int) == Some(n as int),
    decreases n,
{
    let s = text::digits(n, radix);
    if n < radix {
        assert(s.drop_last() =~= seq![]);
        assert(text::numeral(s.drop_last(), radix as int) == Some(0int));
        assert(text::digit(s.last()) == n);
        assert(0 * (radix as int) == 0) by (nonlinear_arith);
    } else {
        assert(n / radix < n && n == (n / radix) * radix + n % radix && n % radix < radix) by (nonlinear_arith)
            requires
                n >= radix,
                radix >= 2,
        ;
        digits_read_back(n / radix, radix);
        assert(s.drop_last() =~= text::digits(n / radix, radix));
        assert(text::digit(s.last()) == n % radix);
        assert(text::numeral(s, radix as int) == Some((n / radix) as int * radix as int + n % radix));
    }
}

/// What holds no white space is what is left when white space is taken off its ends.
proof fn nothing_to_trim(s: Seq<char>)
    requires
        s.len() > 0,
        !text::space(s[0]),
        !text::space(s.last()),
    ensures
        text::trimmed(s) == s,
{
    assert(text::past_space(s, 0) == 0);
    assert(text::trim_start(s) =~= s);
    assert(text::before_space(s, s.len() as int) == s.len());
    assert(text::trim_end(s) =~= s);
}

/// Taking out a character that does not occur changes nothing.
proof fn nothing_to_take_out(s: Seq<char>, c: char)
    requires
        forall|i: int| 0 <= i < s.len() ==> #[trigger] s[i] != c,
    ensures
        parse::without(s, c) == s,
    decreases s.len(),
{
    if s.len() > 0 {
        assert forall|i: int| 0 <= i < s.drop_last().len() implies #[trigger] s.drop_last()[i] != c by {
            assert(s.drop_last()[i] == s[i]);
        }
        nothing_to_take_out(s.drop_last(), c);
        assert(s.drop_last().push(s.last()) =~= s);
    }
}

/// Whether a symbol of kind `k` can have the value, and it is written so that it reads back: a
/// string reads back if nothing in it is escaped.
pub open spec fn is_written(v: Value, k: Kind) -> bool {
    match v {
        Value::Tri(t) => k == Kind::Tristate || k == Kind::Bool && t != Tri::M,
        Value::Int(i) => k == Kind::Int && i64::MIN <= i <= i64::MAX,
        Value::Hex(h) => k == Kind::Hex && 0 <= h <= u64::MAX,
        Value::Str(s) => k == Kind::Str && super::is_plain(s),
    }
}

/// A value that is written out reads back as itself.
pub proof fn values_read_back(v: Value, k: Kind)
    requires
        is_written(v, k),
    ensures
        parse::value_of(super::written(v), k) == Ok::<Value, Seq<char>>(v),
{
    let w = super::written(v);
    match v {
        Value::Tri(t) => {
            nothing_to_trim(w);
        },
        Value::Int(i) => {
            reveal_strlit("-");
            let n = if i < 0 {
                -i
            } else {
                i
            };
            let d = text::digits(n as nat, 10);
            digits_read_back(n as nat, 10);
            assert(forall|j: int| 0 <= j < d.len() ==> w[w.len() - d.len() + j] == #[trigger] d[j]);
            assert forall|j: int| 0 <= j < w.len() implies #[trigger] w[j] == '-' || text::digit(w[j]) >= 0 by {
                if j >= w.len() - d.len() {
                    assert(w[j] == d[j - (w.len() - d.len())]);
                }
            }
            nothing_to_trim(w);
            nothing_to_take_out(w, '_');
            assert(d[0] == w[w.len() - d.len()]);
            if i < 0 {
                assert(w.subrange(1, w.len() as int) =~= d);
            } else {
                assert(w =~= d);
            }
        },
        Value::Hex(h) => {
            reveal_strlit("0x");
            let d = text::digits(h as nat, 16);
            digits_read_back(h as nat, 16);
            assert forall|j: int| 0 <= j < w.len() implies #[trigger] w[j] == 'x' || text::digit(w[j]) >= 0 by {
                if j >= 2 {
                    assert(w[j] == d[j - 2]);
                }
            }
            nothing_to_trim(w);
            nothing_to_take_out(w, '_');
            assert(w.subrange(2, w.len() as int) =~= d);
            assert(text::digit(d[0]) >= 0);
        },
        Value::Str(s) => {
            nothing_to_trim(w);
            assert(w.subrange(1, w.len() - 1) =~= s);
        },
    }
}

/// `m` is a value of a tristate symbol and none of a bool one.
pub proof fn no_bool_is_a_module()
    ensures
        parse::value_of(expr::tri_text(Tri::M), Kind::Bool) is Err,
        parse::value_of(expr::tri_text(Tri::M), Kind::Tristate) == Ok::<Value, Seq<char>>(Value::Tri(Tri::M)),
{
    nothing_to_trim(expr::tri_text(Tri::M));
}

/// Where an expression stands among tokens, and what follows it does not belong to it.
proof fn stands_among(front: Seq<Token>, e: Cond, back: Seq<Token>)
    requires
        back.len() > 0 ==> back[0] != Token::Eq && back[0] != Token::Ne,
    ensures
        spelled_at(front + spelled(e) + back, front.len() as int, e),
{
    let t = front + spelled(e) + back;
    let (p, q) = (front.len() as int, front.len() + spelled(e).len() as int);
    assert(t.subrange(p, q) =~= spelled(e));
    if q < t.len() {
        assert(t[q] == back[0]);
    }
}

/// `&&` binds tighter than `||`, on either side of it, and both group to the left: what is written
/// without brackets reads as if it had them there.
pub proof fn conjunctions_bind_tighter(x: Cond, y: Cond, z: Cond)
    requires
        is_wordy(x),
        is_wordy(y),
        is_wordy(z),
    ensures
        ({
            let (a, b, c) = (spelled(x), spelled(y), spelled(z));
            let n = (a.len() + b.len() + c.len() + 2) as int;
            let (and, or) = (seq![Token::And], seq![Token::Or]);
            let both = |p: Cond, q: Cond| Cond::And(Box::new(p), Box::new(q));
            let either = |p: Cond, q: Cond| Cond::Or(Box::new(p), Box::new(q));
            &&& expr::or_at(a + and + b + or + c, 0) == Ok::<(Cond, int), Seq<char>>((either(both(x, y), z), n))
            &&& expr::or_at(a + or + b + and + c, 0) == Ok::<(Cond, int), Seq<char>>((either(x, both(y, z)), n))
            &&& expr::or_at(a + and + b + and + c, 0) == Ok::<(Cond, int), Seq<char>>((both(both(x, y), z), n))
            &&& expr::or_at(a + or + b + or + c, 0) == Ok::<(Cond, int), Seq<char>>((either(either(x, y), z), n))
        }),
{
    three_operands(x, y, z, Token::And, Token::Or);
    three_operands(x, y, z, Token::Or, Token::And);
    three_operands(x, y, z, Token::And, Token::And);
    three_operands(x, y, z, Token::Or, Token::Or);
}

proof fn three_operands(x: Cond, y: Cond, z: Cond, o1: Token, o2: Token)
    requires
        is_wordy(x),
        is_wordy(y),
        is_wordy(z),
        o1 == Token::And || o1 == Token::Or,
        o2 == Token::And || o2 == Token::Or,
    ensures
        ({
            let (a, b, c) = (spelled(x), spelled(y), spelled(z));
            let n = (a.len() + b.len() + c.len() + 2) as int;
            expr::or_at(a + seq![o1] + b + seq![o2] + c, 0) == Ok::<(Cond, int), Seq<char>>(
                (
                    if o1 == Token::And && o2 == Token::And {
                        Cond::And(Box::new(Cond::And(Box::new(x), Box::new(y))), Box::new(z))
                    } else if o1 == Token::And {
                        Cond::Or(Box::new(Cond::And(Box::new(x), Box::new(y))), Box::new(z))
                    } else if o2 == Token::And {
                        Cond::Or(Box::new(x), Box::new(Cond::And(Box::new(y), Box::new(z))))
                    } else {
                        Cond::Or(Box::new(Cond::Or(Box::new(x), Box::new(y))), Box::new(z))
                    },
                    n,
                ),
            )
        }),
{
    let (a, b, c) = (spelled(x), spelled(y), spelled(z));
    let t = a + seq![o1] + b + seq![o2] + c;
    let none = Seq::<Token>::empty();
    let n = t.len() as int;
    let (i, j) = (a.len() as int, (a.len() + 1 + b.len()) as int);
    spelled_is_some(x);
    spelled_is_some(y);
    spelled_is_some(z);
    stands_among(none, x, seq![o1] + b + seq![o2] + c);
    assert(none + a + (seq![o1] + b + seq![o2] + c) =~= t);
    stands_among(a + seq![o1], y, seq![o2] + c);
    assert(a + seq![o1] + b + (seq![o2] + c) =~= t);
    stands_among(a + seq![o1] + b + seq![o2], z, none);
    assert(a + seq![o1] + b + seq![o2] + c + none =~= t);
    assert(t[i] == o1 && t[j] == o2);
    spelled_parses(t, 0, x);
    spelled_parses(t, i + 1, y);
    spelled_parses(t, j + 1, z);
    let xy = Cond::And(Box::new(x), Box::new(y));
    let yz = Cond::And(Box::new(y), Box::new(z));
    if o1 == Token::And && o2 == Token::And {
        let all = Cond::And(Box::new(xy), Box::new(z));
        assert(expr::and_more(t, n, all) == Ok::<(Cond, int), Seq<char>>((all, n)));
        assert(expr::and_more(t, j, xy) == Ok::<(Cond, int), Seq<char>>((all, n)));
        assert(expr::and_more(t, i, x) == Ok::<(Cond, int), Seq<char>>((all, n)));
        assert(expr::and_at(t, 0) == Ok::<(Cond, int), Seq<char>>((all, n)));
        assert(expr::or_more(t, n, all) == Ok::<(Cond, int), Seq<char>>((all, n)));
    } else if o1 == Token::And {
        let all = Cond::Or(Box::new(xy), Box::new(z));
        assert(expr::and_more(t, j, xy) == Ok::<(Cond, int), Seq<char>>((xy, j)));
        assert(expr::and_more(t, i, x) == Ok::<(Cond, int), Seq<char>>((xy, j)));
        assert(expr::and_at(t, 0) == Ok::<(Cond, int), Seq<char>>((xy, j)));
        assert(expr::and_more(t, n, z) == Ok::<(Cond, int), Seq<char>>((z, n)));
        assert(expr::and_at(t, j + 1) == Ok::<(Cond, int), Seq<char>>((z, n)));
        assert(expr::or_more(t, n, all) == Ok::<(Cond, int), Seq<char>>((all, n)));
        assert(expr::or_more(t, j, xy) == Ok::<(Cond, int), Seq<char>>((all, n)));
    } else if o2 == Token::And {
        let all = Cond::Or(Box::new(x), Box::new(yz));
        assert(expr::and_more(t, i, x) == Ok::<(Cond, int), Seq<char>>((x, i)));
        assert(expr::and_at(t, 0) == Ok::<(Cond, int), Seq<char>>((x, i)));
        assert(expr::and_more(t, n, yz) == Ok::<(Cond, int), Seq<char>>((yz, n)));
        assert(expr::and_more(t, j, y) == Ok::<(Cond, int), Seq<char>>((yz, n)));
        assert(expr::and_at(t, i + 1) == Ok::<(Cond, int), Seq<char>>((yz, n)));
        assert(expr::or_more(t, n, all) == Ok::<(Cond, int), Seq<char>>((all, n)));
        assert(expr::or_more(t, i, x) == Ok::<(Cond, int), Seq<char>>((all, n)));
    } else {
        let either = Cond::Or(Box::new(x), Box::new(y));
        let all = Cond::Or(Box::new(either), Box::new(z));
        assert(expr::and_more(t, i, x) == Ok::<(Cond, int), Seq<char>>((x, i)));
        assert(expr::and_at(t, 0) == Ok::<(Cond, int), Seq<char>>((x, i)));
        assert(expr::and_more(t, j, y) == Ok::<(Cond, int), Seq<char>>((y, j)));
        assert(expr::and_at(t, i + 1) == Ok::<(Cond, int), Seq<char>>((y, j)));
        assert(expr::and_more(t, n, z) == Ok::<(Cond, int), Seq<char>>((z, n)));
        assert(expr::and_at(t, j + 1) == Ok::<(Cond, int), Seq<char>>((z, n)));
        assert(expr::or_more(t, n, all) == Ok::<(Cond, int), Seq<char>>((all, n)));
        assert(expr::or_more(t, j, either) == Ok::<(Cond, int), Seq<char>>((all, n)));
        assert(expr::or_more(t, i, x) == Ok::<(Cond, int), Seq<char>>((all, n)));
    }
}

} // verus!
