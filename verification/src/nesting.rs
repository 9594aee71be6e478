//! Where a `cfg` may stand, said of the blocks around it, and what of a line counts.

use vstd::prelude::*;
use vstd::string::*;

use crate::lint;
use crate::lint::{Block, Scan};

verus! {

/// Whether the block at `k` is the innermost that says what kind of place this is: those inside it are
/// plain ones.
pub open spec fn decides(stack: Seq<Block>, k: int) -> bool {
    &&& 0 <= k < stack.len()
    &&& stack[k] != Block::Other
    &&& forall|i: int| k < i < stack.len() ==> #[trigger] stack[i] == Block::Other
}

/// The innermost block that is not a plain one decides whether a `cfg` may stand inside it: not in a
/// function, not in a type's fields, not in a match. Among items it may, and where every block is a plain
/// one.
pub proof fn the_innermost_block_decides(stack: Seq<Block>, k: int)
    ensures
        decides(stack, k) && stack[k] == Block::Fn ==> lint::forbidden(stack) == Some("a function body"@),
        decides(stack, k) && stack[k] == Block::Fields ==> lint::forbidden(stack) == Some("a type's fields"@),
        decides(stack, k) && stack[k] == Block::Match ==> lint::forbidden(stack) == Some("a match expression"@),
        decides(stack, k) && stack[k] == Block::Items ==> lint::forbidden(stack) is None,
        (forall|i: int| 0 <= i < stack.len() ==> #[trigger] stack[i] == Block::Other) ==> lint::forbidden(stack) is None,
    decreases stack.len(),
{
    if stack.len() > 0 {
        let less = stack.drop_last();
        the_innermost_block_decides(less, k);
        if decides(stack, k) && k < stack.len() - 1 {
            assert(stack[stack.len() - 1] == Block::Other);
            assert(decides(less, k)) by {
                assert forall|i: int| k < i < less.len() implies #[trigger] less[i] == Block::Other by {
                    assert(stack[i] == Block::Other);
                }
            }
        }
        if forall|i: int| 0 <= i < stack.len() ==> #[trigger] stack[i] == Block::Other {
            assert(stack[stack.len() - 1] == Block::Other);
            assert forall|i: int| 0 <= i < less.len() implies #[trigger] less[i] == Block::Other by {
                assert(stack[i] == Block::Other);
            }
        }
    }
}

/// What a brace opens is told by the words before it: inside a function nothing but a match is other
/// than the function, outside one `fn` opens a function, a type's word its fields, `match` a match and
/// `impl`, `mod` and `trait` more items.
pub proof fn braces_open_what_the_words_say(pending: Seq<char>, stack: Seq<Block>)
    ensures
        ({
            let k = lint::block_kind(pending, stack);
            let inside = stack.len() > 0 && stack.last() == Block::Fn;
            let says = |w: &str| lint::has_word(pending, w@);
            &&& inside && says("match") ==> k == Block::Match
            &&& inside && !says("match") ==> k == Block::Fn
            &&& !inside && says("fn") ==> k == Block::Fn
            &&& !inside && !says("fn") && (says("struct") || says("union") || says("enum")) ==> k == Block::Fields
            &&& !inside && !says("fn") && !says("struct") && !says("union") && !says("enum") && says("match") ==> k
                == Block::Match
            &&& !inside && !says("fn") && !says("struct") && !says("union") && !says("enum") && !says("match") && (says("impl")
                || says("mod") || says("trait")) ==> k == Block::Items
            &&& !inside && !says("fn") && !says("struct") && !says("union") && !says("enum") && !says("match") && !says("impl")
                && !says("mod") && !says("trait") ==> k == Block::Other
        }),
{
}

/// A brace that opens and one that closes leave the blocks as they were, and each starts new words; a
/// semicolon starts new words too, and any other character goes on with them.
pub proof fn braces_balance(s: Scan, c: char)
    ensures
        ({
            let inside = lint::past_char(s, '{');
            &&& inside.stack.len() == s.stack.len() + 1
            &&& inside.pending.len() == 0
            &&& lint::past_char(inside, '}').stack == s.stack
            &&& lint::past_char(s, ';').pending.len() == 0
            &&& lint::past_char(s, ';').stack == s.stack
            &&& c != '{' && c != '}' && c != ';' ==> lint::past_char(s, c).pending == s.pending.push(c)
                && lint::past_char(s, c).stack == s.stack
            &&& s.stack.len() == 0 ==> lint::past_char(s, '}').stack.len() == 0
        }),
{
    assert(s.stack.push(lint::block_kind(s.pending, s.stack)).drop_last() =~= s.stack);
}

/// A line with a `cfg` where one may not stand is reported with what it stands in, unless it belongs to
/// a test; one that stands where it may, with no block opened before it on the line, is not.
pub proof fn misplaced_cfgs_are_reported(s: Scan, raw: Seq<char>, k: int)
    requires
        decides(s.stack, k),
        s.test is None,
        ({
            let line = lint::stripped(raw, 0, false, false);
            !lint::marks_test(line, false) && !lint::marks_test(line, true) && lint::has_cfg(line)
        }),
    ensures
        s.stack[k] == Block::Fn ==> lint::reported(s, raw) == Some("a function body"@),
        s.stack[k] == Block::Fields ==> lint::reported(s, raw) == Some("a type's fields"@),
        s.stack[k] == Block::Match ==> lint::reported(s, raw) == Some("a match expression"@),
{
    the_innermost_block_decides(s.stack, k);
}

proof fn nothing_is_reported_in_tests(s: Scan, line: Seq<char>, i: int)
    requires
        0 <= i,
        forall|j: int| 0 <= j < line.len() ==> !#[trigger] lint::cfg_at(line, j),
    ensures
        lint::reported_from(s, line, i) is None,
    decreases line.len() - i,
{
    if i < line.len() {
        assert(!lint::cfg_at(line, i));
        nothing_is_reported_in_tests(s, line, i + 1);
    }
}

/// A line without a `cfg` is never reported.
pub proof fn lines_without_cfg_are_not_reported(s: Scan, raw: Seq<char>)
    requires
        !lint::has_cfg(lint::stripped(raw, 0, false, false)),
        forall|j: int|
            0 <= j < lint::stripped(raw, 0, false, false).len() ==> !#[trigger] lint::cfg_at(
                lint::stripped(raw, 0, false, false),
                j,
            ),
    ensures
        lint::reported(s, raw) is None,
{
    let line = lint::stripped(raw, 0, false, false);
    nothing_is_reported_in_tests(lint::entered(s, line), line, 0);
}

/// Whether a text holds nothing that starts a string, a character or a comment.
pub open spec fn is_quiet(s: Seq<char>) -> bool {
    forall|i: int| 0 <= i < s.len() ==> #[trigger] s[i] != '"' && s[i] != '\'' && s[i] != '/'
}

proof fn quiet_text_stays(b: Seq<char>, n: int, i: int)
    requires
        0 <= i <= n <= b.len(),
        forall|j: int| i <= j < n ==> #[trigger] b[j] != '"' && b[j] != '\'' && b[j] != '/',
    ensures
        lint::stripped(b, i, false, false) == b.subrange(i, n) + lint::stripped(b, n, false, false),
    decreases n - i,
{
    if i < n {
        assert(b[i] != '"' && b[i] != '\'' && b[i] != '/');
        quiet_text_stays(b, n, i + 1);
        assert(b.subrange(i, n) =~= seq![b[i]] + b.subrange(i + 1, n));
        assert(lint::stripped(b, i, false, false) =~= b.subrange(i, n) + lint::stripped(b, n, false, false));
    } else {
        assert(b.subrange(i, n) =~= seq![]);
        assert(lint::stripped(b, i, false, false) =~= b.subrange(i, n) + lint::stripped(b, n, false, false));
    }
}

proof fn strings_are_blank(b: Seq<char>, n: int, i: int)
    requires
        0 <= i <= n < b.len(),
        b[n] == '"',
        forall|j: int| i <= j < n ==> #[trigger] b[j] != '"' && b[j] != '\\',
    ensures
        lint::stripped(b, i, true, false) == Seq::new((n - i) as nat, |j: int| ' ') + (seq!['"'] + lint::stripped(
            b,
            n + 1,
            false,
            false,
        )),
    decreases n - i,
{
    let blank = Seq::new((n - i) as nat, |j: int| ' ');
    if i < n {
        assert(b[i] != '"' && b[i] != '\\');
        strings_are_blank(b, n, i + 1);
        let less = Seq::new((n - i - 1) as nat, |j: int| ' ');
        assert(blank =~= seq![' '] + less);
    } else {
        assert(blank =~= seq![]);
    }
    assert(lint::stripped(b, i, true, false) =~= blank + (seq!['"'] + lint::stripped(b, n + 1, false, false)));
}

/// Nothing behind `//` counts, and nothing in a string does: a comment is left out, the characters of a
/// string are blanks, and text outside both stays as it is, at its place.
pub proof fn comments_and_strings_do_not_count(a: Seq<char>, inside: Seq<char>, behind: Seq<char>)
    requires
        is_quiet(a),
    ensures
        lint::stripped(a, 0, false, false) == a,
        lint::stripped(a + seq!['/', '/'] + behind, 0, false, false) == a,
        (forall|i: int| 0 <= i < inside.len() ==> #[trigger] inside[i] != '"' && inside[i] != '\\') && is_quiet(behind)
            ==> lint::stripped(a + seq!['"'] + inside + seq!['"'] + behind, 0, false, false) == a + Seq::new(
            inside.len() + 1,
            |i: int| ' ',
        ) + seq!['"'] + behind,
{
    let n = a.len() as int;
    quiet_text_stays(a, n, 0);
    assert(a.subrange(0, n) =~= a);
    assert(lint::stripped(a, n, false, false) =~= seq![]);
    assert(a + Seq::<char>::empty() =~= a);
    let c = a + seq!['/', '/'] + behind;
    assert forall|j: int| 0 <= j < n implies #[trigger] c[j] != '"' && c[j] != '\'' && c[j] != '/' by {
        assert(c[j] == a[j]);
    }
    quiet_text_stays(c, n, 0);
    assert(c[n] == '/' && c[n + 1] == '/');
    assert(c.subrange(0, n) =~= a);
    assert(lint::stripped(c, n, false, false) =~= seq![]);
    if (forall|i: int| 0 <= i < inside.len() ==> #[trigger] inside[i] != '"' && inside[i] != '\\') && is_quiet(behind) {
        let s = a + seq!['"'] + inside + seq!['"'] + behind;
        let m = n + 1 + inside.len();
        assert forall|j: int| 0 <= j < n implies #[trigger] s[j] != '"' && s[j] != '\'' && s[j] != '/' by {
            assert(s[j] == a[j]);
        }
        quiet_text_stays(s, n, 0);
        assert(s.subrange(0, n) =~= a);
        assert(s[n] == '"' && s[m] == '"');
        assert forall|j: int| n + 1 <= j < m implies #[trigger] s[j] != '"' && s[j] != '\\' by {
            assert(s[j] == inside[j - n - 1]);
        }
        strings_are_blank(s, m, n + 1);
        let blank = Seq::new((m - (n + 1)) as nat, |j: int| ' ');
        let wide = Seq::new(inside.len() + 1, |i: int| ' ');
        assert(wide =~= seq![' '] + blank);
        assert(lint::stripped(s, n, false, false) == seq![' '] + lint::stripped(s, n + 1, true, false));
        assert forall|j: int| m + 1 <= j < s.len() implies #[trigger] s[j] != '"' && s[j] != '\'' && s[j] != '/' by {
            assert(s[j] == behind[j - m - 1]);
        }
        quiet_text_stays(s, s.len() as int, m + 1);
        assert(s.subrange(m + 1, s.len() as int) =~= behind);
        assert(lint::stripped(s, s.len() as int, false, false) =~= seq![]);
        assert(lint::stripped(s, 0, false, false) =~= a + wide + seq!['"'] + behind);
    }
}

} // verus!
