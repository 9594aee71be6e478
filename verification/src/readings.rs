//! How text is taken apart and put together: numbers, lines, words and pieces, said of the text itself.

use vstd::prelude::*;

use crate::bytes;
use crate::text;

verus! {

/// A number that is written reads back as itself, in any radix up to sixteen, and with its sign.
pub proof fn numbers_read_back(n: nat, radix: nat)
    requires
        2 <= radix <= 16,
    ensures
        text::numeral(text::digits(n, radix), radix as int) == Some(n as int),
        text::digits(n, radix).len() > 0,
        n > 0 ==> text::digits(n, radix)[0] != '0',
        forall|i: int|
            0 <= i < text::digits(n, radix).len() ==> 0 <= text::digit(#[trigger] text::digits(n, radix)[i]) < radix,
    decreases n,
{
    let s = text::digits(n, radix);
    if n < radix {
        assert(s.drop_last() =~= seq![]);
        assert(text::numeral(s.drop_last(), radix as int) == Some(0int));
        assert(text::digit(s.last()) == n);
        assert(0 * (radix as int) == 0) by (nonlinear_arith);
    } else {
        let (q, r) = (n / radix, n % radix);
        assert(q < n && n == q * radix + r && 0 <= r < radix && q > 0) by (nonlinear_arith)
            requires
                n >= radix,
                radix >= 2,
                q == n / radix,
                r == n % radix,
        ;
        numbers_read_back(q, radix);
        let before = text::digits(q, radix);
        assert(s == before.push(text::digit_char(r as int)));
        assert(s.drop_last() =~= before);
        assert(text::digit(text::digit_char(r as int)) == r);
        assert(s[0] == before[0]);
        assert forall|i: int| 0 <= i < s.len() implies 0 <= text::digit(#[trigger] s[i]) < radix by {
            if i < before.len() {
                assert(s[i] == before[i]);
            }
        }
    }
}

/// A decimal number reads back as itself, negative or not.
pub proof fn decimals_read_back(i: int)
    ensures
        text::signed(text::decimal(i), 10) == Some(i),
        i < 0 <==> text::decimal(i)[0] == '-',
{
    let n: nat = if i < 0 {
        (-i) as nat
    } else {
        i as nat
    };
    numbers_read_back(n, 10);
    let d = text::digits(n, 10);
    assert(0 <= text::digit(d[0]) < 10);
    if i < 0 {
        reveal_strlit("-");
        let s = text::decimal(i);
        assert(s[0] == '-');
        assert(s.subrange(1, s.len() as int) =~= d);
    }
}

proof fn lines_end(s: Seq<char>, n: int, i: int)
    requires
        0 <= i <= n <= s.len(),
        n < s.len() ==> s[n] == '\n',
        forall|j: int| i <= j < n ==> #[trigger] s[j] != '\n',
    ensures
        text::line_end(s, i) == n,
    decreases n - i,
{
    if i < n {
        assert(s[i] != '\n');
        lines_end(s, n, i + 1);
    }
}

proof fn line_ends_behind(p: Seq<char>, s: Seq<char>, i: int)
    requires
        0 <= i <= s.len(),
    ensures
        text::line_end(p + s, p.len() + i) == p.len() + text::line_end(s, i),
        i <= text::line_end(s, i) <= s.len(),
    decreases s.len() - i,
{
    if i < s.len() {
        assert((p + s)[p.len() + i] == s[i]);
        if s[i] != '\n' {
            line_ends_behind(p, s, i + 1);
        }
    }
}

proof fn lines_behind(p: Seq<char>, s: Seq<char>, i: int)
    requires
        0 <= i <= s.len(),
    ensures
        text::lines(p + s, p.len() + i) == text::lines(s, i),
    decreases s.len() - i,
{
    line_ends_behind(p, s, i);
    let e = text::line_end(s, i);
    if i < s.len() {
        assert((p + s).subrange(p.len() + i, p.len() + e) =~= s.subrange(i, e));
        assert((p + s).subrange(p.len() + i, (p + s).len() as int) =~= s.subrange(i, s.len() as int));
        if e < s.len() {
            lines_behind(p, s, e + 1);
        }
    }
}

/// Text is taken apart at its line ends: a line is what stands before the first, without the carriage
/// return that may stand before that, and the other lines are those of what follows it. The last needs no
/// line end.
pub proof fn lines_are_split_at_their_ends(line: Seq<char>, rest: Seq<char>)
    requires
        forall|i: int| 0 <= i < line.len() ==> #[trigger] line[i] != '\n',
        line.len() > 0 ==> line.last() != '\r',
    ensures
        text::lines(line + seq!['\n'] + rest, 0) == seq![line] + text::lines(rest, 0),
        text::lines(line + seq!['\r', '\n'] + rest, 0) == seq![line] + text::lines(rest, 0),
        line.len() > 0 ==> text::lines(line, 0) == seq![line],
        text::lines(seq![], 0).len() == 0,
{
    let p = line + seq!['\n'];
    let s = p + rest;
    let n = line.len() as int;
    assert forall|j: int| 0 <= j < n implies #[trigger] s[j] != '\n' by {
        assert(s[j] == line[j]);
    }
    lines_end(s, n, 0);
    lines_behind(p, rest, 0);
    assert(s.subrange(0, n) =~= line);
    let p2 = line + seq!['\r', '\n'];
    let s2 = p2 + rest;
    assert forall|j: int| 0 <= j < n + 1 implies #[trigger] s2[j] != '\n' by {
        if j < n {
            assert(s2[j] == line[j]);
        }
    }
    lines_end(s2, n + 1, 0);
    lines_behind(p2, rest, 0);
    let cut = s2.subrange(0, n + 1);
    assert(cut.last() == '\r');
    assert(cut.drop_last() =~= line);
    if n > 0 {
        lines_end(line, n, 0);
        assert(line.subrange(0, n) =~= line);
    }
}

pub(crate) proof fn blanks_end(s: Seq<char>, n: int, i: int)
    requires
        0 <= i <= n <= s.len(),
        n < s.len() ==> !text::space(s[n]),
        forall|j: int| i <= j < n ==> text::space(#[trigger] s[j]),
    ensures
        text::past_space(s, i) == n,
    decreases n - i,
{
    if i < n {
        assert(text::space(s[i]));
        blanks_end(s, n, i + 1);
    }
}

pub(crate) proof fn words_end(s: Seq<char>, n: int, i: int)
    requires
        0 <= i <= n <= s.len(),
        n < s.len() ==> text::space(s[n]),
        forall|j: int| i <= j < n ==> !text::space(#[trigger] s[j]),
    ensures
        text::until_space(s, i) == n,
    decreases n - i,
{
    if i < n {
        assert(!text::space(s[i]));
        words_end(s, n, i + 1);
    }
}

proof fn blanks_behind(p: Seq<char>, s: Seq<char>, i: int)
    requires
        0 <= i <= s.len(),
    ensures
        text::past_space(p + s, p.len() + i) == p.len() + text::past_space(s, i),
        i <= text::past_space(s, i) <= s.len(),
    decreases s.len() - i,
{
    if i < s.len() {
        assert((p + s)[p.len() + i] == s[i]);
        if text::space(s[i]) {
            blanks_behind(p, s, i + 1);
        }
    }
}

proof fn ends_behind(p: Seq<char>, s: Seq<char>, i: int)
    requires
        0 <= i <= s.len(),
    ensures
        text::until_space(p + s, p.len() + i) == p.len() + text::until_space(s, i),
        i <= text::until_space(s, i) <= s.len(),
    decreases s.len() - i,
{
    if i < s.len() {
        assert((p + s)[p.len() + i] == s[i]);
        if !text::space(s[i]) {
            ends_behind(p, s, i + 1);
        }
    }
}

proof fn words_behind(p: Seq<char>, s: Seq<char>, i: int)
    requires
        0 <= i <= s.len(),
    ensures
        text::words(p + s, p.len() + i) == text::words(s, i),
    decreases s.len() - i,
{
    blanks_behind(p, s, i);
    let a = text::past_space(s, i);
    ends_behind(p, s, a);
    let b = text::until_space(s, a);
    if a < b {
        assert((p + s).subrange(p.len() + a, p.len() + b) =~= s.subrange(a, b));
        words_behind(p, s, b);
    }
}

/// Text is taken apart into words: blanks before a word do not count, and a word ends at the first blank
/// behind it.
pub proof fn words_are_split_at_blanks(blanks: Seq<char>, word: Seq<char>, rest: Seq<char>)
    requires
        forall|i: int| 0 <= i < blanks.len() ==> text::space(#[trigger] blanks[i]),
        forall|i: int| 0 <= i < word.len() ==> !text::space(#[trigger] word[i]),
        word.len() > 0,
        rest.len() > 0 ==> text::space(rest[0]),
    ensures
        text::words(blanks + word + rest, 0) == seq![word] + text::words(rest, 0),
        text::words(blanks, 0).len() == 0,
{
    let p = blanks + word;
    let s = p + rest;
    let (a, b) = (blanks.len() as int, p.len() as int);
    assert(s[a] == word[0]);
    assert forall|j: int| 0 <= j < a implies text::space(#[trigger] s[j]) by {
        assert(s[j] == blanks[j]);
    }
    blanks_end(s, a, 0);
    assert forall|j: int| a <= j < b implies !text::space(#[trigger] s[j]) by {
        assert(s[j] == word[j - a]);
    }
    if b < s.len() {
        assert(s[b] == rest[0]);
    }
    words_end(s, b, a);
    words_behind(p, rest, 0);
    assert(s.subrange(a, b) =~= word);
    blanks_end(blanks, a, 0);
    assert(text::until_space(blanks, a) == a);
}

proof fn separators_behind(p: Seq<char>, s: Seq<char>, sep: char, i: int)
    requires
        0 <= i <= s.len(),
    ensures
        text::next_of(p + s, sep, p.len() + i) == p.len() + text::next_of(s, sep, i),
        i <= text::next_of(s, sep, i) <= s.len(),
    decreases s.len() - i,
{
    if i < s.len() {
        assert((p + s)[p.len() + i] == s[i]);
        if s[i] != sep {
            separators_behind(p, s, sep, i + 1);
        }
    }
}

proof fn pieces_behind(p: Seq<char>, s: Seq<char>, sep: char, i: int)
    requires
        0 <= i <= s.len(),
    ensures
        text::pieces(p + s, sep, p.len() + i) == text::pieces(s, sep, i),
    decreases s.len() - i,
{
    separators_behind(p, s, sep, i);
    let j = text::next_of(s, sep, i);
    assert((p + s).subrange(p.len() + i, (p + s).len() as int) =~= s.subrange(i, s.len() as int));
    if j < s.len() {
        assert((p + s).subrange(p.len() + i, p.len() + j) =~= s.subrange(i, j));
        pieces_behind(p, s, sep, j + 1);
    }
}

pub(crate) proof fn separators_are_next(s: Seq<char>, sep: char, n: int, i: int)
    requires
        0 <= i <= n <= s.len(),
        n < s.len() ==> s[n] == sep,
        forall|j: int| i <= j < n ==> #[trigger] s[j] != sep,
    ensures
        text::next_of(s, sep, i) == n,
    decreases n - i,
{
    if i < n {
        assert(s[i] != sep);
        separators_are_next(s, sep, n, i + 1);
    }
}

/// Text is taken apart at every separator: a piece is what stands before the first, and the other pieces
/// are those of what follows it.
pub proof fn pieces_are_split_at_separators(piece: Seq<char>, sep: char, rest: Seq<char>)
    requires
        forall|i: int| 0 <= i < piece.len() ==> #[trigger] piece[i] != sep,
    ensures
        text::pieces(piece + seq![sep] + rest, sep, 0) == seq![piece] + text::pieces(rest, sep, 0),
        text::pieces(piece, sep, 0) == seq![piece],
{
    let p = piece + seq![sep];
    let s = p + rest;
    let n = piece.len() as int;
    assert forall|j: int| 0 <= j < n implies #[trigger] s[j] != sep by {
        assert(s[j] == piece[j]);
    }
    separators_are_next(s, sep, n, 0);
    pieces_behind(p, rest, sep, 0);
    assert(s.subrange(0, n) =~= piece);
    separators_are_next(piece, sep, n, 0);
    assert(piece.subrange(0, n) =~= piece);
}

/// What is joined falls into its parts again at the separator, where none of them holds it.
pub proof fn joined_parts_come_apart(parts: Seq<Seq<char>>, sep: char, rest: Seq<char>)
    requires
        parts.len() > 0,
        forall|i: int, j: int| 0 <= i < parts.len() && 0 <= j < parts[i].len() ==> #[trigger] parts[i][j] != sep,
    ensures
        text::pieces(text::joined(parts, seq![sep]) + seq![sep] + rest, sep, 0) == parts + text::pieces(rest, sep, 0),
        text::pieces(text::joined(parts, seq![sep]), sep, 0) == parts,
    decreases parts.len(),
{
    let last = parts.last();
    assert forall|j: int| 0 <= j < last.len() implies #[trigger] last[j] != sep by {
        assert(parts[parts.len() - 1][j] != sep);
    }
    let whole = text::joined(parts, seq![sep]);
    pieces_are_split_at_separators(last, sep, rest);
    if parts.len() == 1 {
        assert(parts =~= seq![last]);
    } else {
        let front = parts.drop_last();
        assert forall|i: int, j: int| 0 <= i < front.len() && 0 <= j < front[i].len() implies #[trigger] front[i][j]
            != sep by {
            assert(parts[i][j] != sep);
        }
        joined_parts_come_apart(front, sep, last);
        joined_parts_come_apart(front, sep, last + seq![sep] + rest);
        let f = text::joined(front, seq![sep]);
        assert(whole + seq![sep] + rest =~= f + seq![sep] + (last + seq![sep] + rest));
        assert(front + (seq![last] + text::pieces(rest, sep, 0)) =~= parts + text::pieces(rest, sep, 0));
        assert(front + seq![last] =~= parts);
    }
}

proof fn nothing_is_replaced_before(s: Seq<char>, from: Seq<char>, to: Seq<char>, n: int, i: int)
    requires
        0 <= i <= n <= s.len(),
        forall|j: int| i <= j < n ==> !#[trigger] bytes::stands_at(s, j, from),
    ensures
        text::replaced_from(s, from, to, i) == s.subrange(i, n) + text::replaced_from(s, from, to, n),
    decreases n - i,
{
    if i < n {
        nothing_is_replaced_before(s, from, to, n, i + 1);
        assert(!bytes::stands_at(s, i, from));
        assert(seq![s[i]] + (s.subrange(i + 1, n) + text::replaced_from(s, from, to, n)) =~= s.subrange(i, n)
            + text::replaced_from(s, from, to, n));
    } else {
        assert(s.subrange(i, n) =~= seq![]);
        assert(seq![] + text::replaced_from(s, from, to, n) =~= text::replaced_from(s, from, to, n));
    }
}

proof fn replacing_behind(p: Seq<char>, s: Seq<char>, from: Seq<char>, to: Seq<char>, i: int)
    requires
        0 <= i <= s.len(),
        from.len() > 0,
    ensures
        text::replaced_from(p + s, from, to, p.len() + i) == text::replaced_from(s, from, to, i),
    decreases s.len() - i,
{
    if i < s.len() {
        assert((p + s)[p.len() + i] == s[i]);
        if i + from.len() <= s.len() {
            assert((p + s).subrange(p.len() + i, p.len() + i + from.len()) =~= s.subrange(i, i + from.len()));
        }
        assert(bytes::stands_at(p + s, p.len() + i, from) == bytes::stands_at(s, i, from));
        if bytes::stands_at(s, i, from) {
            replacing_behind(p, s, from, to, i + from.len());
        } else {
            replacing_behind(p, s, from, to, i + 1);
        }
    }
}

/// Replacing puts the new text where the old one first stands, and goes on behind it; what holds the old
/// text nowhere stays as it is.
pub proof fn the_first_place_is_replaced(before: Seq<char>, from: Seq<char>, to: Seq<char>, rest: Seq<char>)
    requires
        from.len() > 0,
        forall|j: int| 0 <= j < before.len() ==> !#[trigger] bytes::stands_at(before + from + rest, j, from),
    ensures
        text::replaced(before + from + rest, from, to) == before + to + text::replaced(rest, from, to),
        (forall|j: int| 0 <= j < rest.len() ==> !#[trigger] bytes::stands_at(rest, j, from)) ==> text::replaced(
            rest,
            from,
            to,
        ) == rest,
{
    let p = before + from;
    let s = p + rest;
    let n = before.len() as int;
    nothing_is_replaced_before(s, from, to, n, 0);
    assert(s.subrange(0, n) =~= before);
    assert(s.subrange(n, n + from.len()) =~= from);
    assert(bytes::stands_at(s, n, from));
    replacing_behind(p, rest, from, to, 0);
    assert(before + (to + text::replaced(rest, from, to)) =~= before + to + text::replaced(rest, from, to));
    if forall|j: int| 0 <= j < rest.len() ==> !#[trigger] bytes::stands_at(rest, j, from) {
        nothing_is_replaced_before(rest, from, to, rest.len() as int, 0);
        assert(rest.subrange(0, rest.len() as int) + text::replaced_from(rest, from, to, rest.len() as int) =~= rest);
    }
}

/// Letters in either case differ by nothing else: what is raised and lowered again is what was lowered.
pub proof fn cases_differ_by_letters(s: Seq<char>, i: int)
    requires
        0 <= i < s.len(),
    ensures
        text::raised(s).len() == s.len(),
        text::folded(s).len() == s.len(),
        'a' <= s[i] <= 'z' ==> text::raised(s)[i] as int == s[i] as int - 'a' as int + 'A' as int,
        !('a' <= s[i] <= 'z') ==> text::raised(s)[i] == s[i],
        'A' <= s[i] <= 'Z' ==> text::folded(s)[i] as int == s[i] as int - 'A' as int + 'a' as int,
        !('A' <= s[i] <= 'Z') ==> text::folded(s)[i] == s[i],
        text::folded(text::raised(s)) == text::folded(s),
        text::raised(text::folded(s)) == text::raised(s),
{
    assert(text::folded(text::raised(s)) =~= text::folded(s));
    assert(text::raised(text::folded(s)) =~= text::raised(s));
}

/// Text that is aligned to the right has the width that was asked for, or its own where that is more, and
/// only blanks before it.
pub proof fn aligned_text_ends_with_itself(s: Seq<char>, width: nat)
    ensures
        ({
            let r = text::right_aligned(s, width);
            let n = r.len() - s.len();
            &&& r.len() == if s.len() < width {
                width
            } else {
                s.len()
            }
            &&& r.subrange(n, r.len() as int) == s
            &&& forall|i: int| 0 <= i < n ==> #[trigger] r[i] == ' '
        }),
{
    let r = text::right_aligned(s, width);
    let n = r.len() - s.len();
    assert(r.subrange(n, r.len() as int) =~= s);
}

} // verus!
