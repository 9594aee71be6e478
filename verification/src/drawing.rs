//! What the screen of the configuration editor shows, said of the symbols, the rows and the lines
//! themselves.

use vstd::prelude::*;
use vstd::string::*;

use crate::kcfg;
use crate::kcfg::expr::Tri;
use crate::kcfg::resolve;
use crate::menuconfig;
use crate::menuconfig::{Desk, Pane, Spot};
use crate::readings;
use crate::text;

verus! {

/// The mark before a symbol shows what it is: a star or a cross where it is on, a letter where it is a
/// module, brackets that say what can be done with it, and nothing where it cannot be.
pub proof fn marks_show_what_a_symbol_is(s: kcfg::Sym, t: Tri, c: resolve::Cause)
    ensures
        ({
            let m = menuconfig::mark(s, kcfg::Value::Tri(t), c);
            let forced = s.readonly || c is SelectedBy;
            let met = !(c is DependsUnmet);
            let free = met && !forced;
            let held = met && forced;
            &&& !met ==> m == "   "@
            &&& met && s.kind is Bool && s.choice is Some ==> (t == Tri::Y ==> m == "(X)"@) && (t != Tri::Y ==> m == "( )"@)
            &&& free && s.kind is Bool && s.choice is None ==> (t == Tri::Y ==> m == "[*]"@) && (t != Tri::Y ==> m == "[ ]"@)
            &&& held && s.kind is Bool && s.choice is None ==> (t == Tri::Y ==> m == "-*-"@) && (t != Tri::Y ==> m == "- -"@)
            &&& met && s.kind is Tristate && t == Tri::N ==> m == "< >"@
            &&& met && s.kind is Tristate && t == Tri::M ==> m == "<M>"@
            &&& free && s.kind is Tristate && t == Tri::Y ==> m == "<*>"@
            &&& held && s.kind is Tristate && t == Tri::Y ==> m == "-*-"@
        }),
{
}

/// The mark before a number or a text is what it is worth, in parentheses.
pub proof fn marks_show_values(s: kcfg::Sym, v: kcfg::Value, c: resolve::Cause)
    requires
        !(v is Tri),
    ensures
        c is DependsUnmet ==> menuconfig::mark(s, v, c) == "   "@,
        !(c is DependsUnmet) ==> menuconfig::mark(s, v, c) == "("@ + kcfg::literal(v) + ")"@,
{
}

/// The row of a symbol shows whether it was changed, its mark, its prompt and its name, and what it needs
/// where that is missing.
pub proof fn rows_show_their_symbol(t: kcfg::Table, d: Desk, i: int)
    requires
        0 <= i < t.symbols.len(),
        forall|j: int| 0 <= j < i ==> (#[trigger] t.symbols[j]).name != t.symbols[i].name,
    ensures
        ({
            let s = t.symbols[i];
            let row = menuconfig::symbol_row(t, d, s.name);
            let changed = exists|k: int| 0 <= k < d.changes.len() && (#[trigger] d.changes[k]).symbol == s.name;
            let prompt = match s.prompt {
                Some(p) => p,
                None => s.name,
            };
            let m = menuconfig::mark(s, d.o.vals[i], d.o.causes[i]);
            let unmet = d.o.causes[i] is DependsUnmet && s.depends is Some;
            &&& changed && !unmet ==> row == "+ "@ + m + " "@ + prompt + "  ["@ + s.name + "]"@
            &&& !changed && !unmet ==> row == "  "@ + m + " "@ + prompt + "  ["@ + s.name + "]"@
            &&& changed && unmet ==> row == "+ "@ + m + " "@ + prompt + "  ["@ + s.name + "]"@ + "  (needs "@
                + kcfg::expr::shown(s.depends->0) + ")"@
            &&& !changed && unmet ==> row == "  "@ + m + " "@ + prompt + "  ["@ + s.name + "]"@ + "  (needs "@
                + kcfg::expr::shown(s.depends->0) + ")"@
        }),
{
    names_stand(t, i, 0);
}

proof fn names_stand(t: kcfg::Table, i: int, from: int)
    requires
        0 <= from <= i < t.symbols.len(),
        forall|j: int| 0 <= j < i ==> (#[trigger] t.symbols[j]).name != t.symbols[i].name,
    ensures
        kcfg::sym_from(t.symbols, t.symbols[i].name, from) == Some(i),
    decreases i - from,
{
    if from < i {
        assert(t.symbols[from].name != t.symbols[i].name);
        names_stand(t, i, from + 1);
    }
}

/// A choice shows the first of its members that is on.
pub proof fn choices_show_what_is_on(o: resolve::Outcome, members: Seq<Seq<char>>, k: int, i: int)
    requires
        0 <= i <= k <= members.len(),
        k < members.len() ==> resolve::tri_in(o.names, o.vals, members[k]) != Tri::N,
        forall|j: int| i <= j < k ==> resolve::tri_in(o.names, o.vals, #[trigger] members[j]) == Tri::N,
    ensures
        menuconfig::first_on(o, members, i) == if k < members.len() {
            Some(members[k])
        } else {
            None
        },
    decreases k - i,
{
    if i < k {
        assert(resolve::tri_in(o.names, o.vals, members[i]) == Tri::N);
        choices_show_what_is_on(o, members, k, i + 1);
    }
}

/// The row under the cursor is always among those that are drawn, and the first rows are drawn as long as
/// that is so.
pub proof fn the_cursor_is_on_the_screen(cursor: int, body: int)
    requires
        0 <= cursor,
        0 < body,
    ensures
        0 <= menuconfig::first_drawn(cursor, body) <= cursor < menuconfig::first_drawn(cursor, body) + body,
        cursor < body ==> menuconfig::first_drawn(cursor, body) == 0,
        cursor >= body ==> cursor == menuconfig::first_drawn(cursor, body) + body - 1,
{
}

/// What is drawn are the rows of the place where the cursor is, in order, and only the row under the cursor
/// stands out.
pub proof fn rows_are_drawn_in_order(t: kcfg::Table, d: Desk, k: int, end: int, j: int)
    requires
        k <= j < end,
    ensures
        menuconfig::drawn_rows(t, d, k, end).len() == end - k,
        ({
            let (node, cursor) = d.stack.last();
            let row = menuconfig::row_text(t, d, menuconfig::all_rows(t, node)[j]);
            menuconfig::drawn_rows(t, d, k, end)[j - k] == if j == cursor {
                "\x1b[7m"@ + row + "\x1b[0m"@
            } else {
                row
            }
        }),
    decreases end - k,
{
    if k + 1 < end {
        rows_are_drawn_in_order(
            t,
            d,
            k + 1,
            end,
            if j > k {
                j
            } else {
                k + 1
            },
        );
    } else {
        assert(menuconfig::drawn_rows(t, d, k + 1, end).len() == 0);
    }
}

proof fn filling_fills(s: Seq<Seq<char>>, n: int)
    ensures
        ({
            let r = menuconfig::at_least(s, n);
            &&& r.len() == if s.len() < n {
                n
            } else {
                s.len() as int
            }
            &&& r.subrange(0, s.len() as int) == s
            &&& forall|i: int| s.len() <= i < r.len() ==> #[trigger] r[i] == ""@
        }),
    decreases n - s.len(),
{
    if s.len() < n {
        let more = s.push(""@);
        filling_fills(more, n);
        let r = menuconfig::at_least(s, n);
        assert(r.subrange(0, s.len() as int) =~= r.subrange(0, more.len() as int).subrange(0, s.len() as int));
        assert(more.subrange(0, s.len() as int) =~= s);
        assert(r[s.len() as int] == r.subrange(0, more.len() as int)[s.len() as int]);
    } else {
        assert(s.subrange(0, s.len() as int) =~= s);
    }
}

proof fn middles_are_short(t: kcfg::Table, d: Desk, body: int)
    requires
        0 <= body,
    ensures
        menuconfig::middle(t, d, body).len() <= body,
{
    if !(d.view is Help) && !(d.view is Why) {
        let (node, cursor) = d.stack.last();
        let first = menuconfig::first_drawn(cursor, body);
        let n = menuconfig::all_rows(t, node).len() as int;
        let end = if first + body < n {
            first + body
        } else {
            n
        };
        if first < end {
            rows_are_drawn_in_order(t, d, first, end, first);
        }
    }
}

/// A screen is exactly as high as it was asked to be: where one is stands at its top, and what is said to
/// the user, no more than four lines of it, at its bottom.
pub proof fn screens_are_as_high_as_asked(t: kcfg::Table, d: Desk, height: int)
    requires
        height >= 8,
    ensures
        ({
            let all = menuconfig::screen_lines(t, d, height);
            let told = menuconfig::footer(d);
            let n = if told.len() > 4 {
                4
            } else {
                told.len() as int
            };
            &&& all.len() == height
            &&& all[0] == "\x1b[1m"@ + text::joined(menuconfig::crumbs(t, d.stack, d.stack.len()), " > "@) + "\x1b[0m"@
            &&& forall|i: int| 0 <= i < n ==> #[trigger] told[i] == all[height - n + i]
        }),
{
    middles_are_short(t, d, height - 8);
    let head = seq![
        "\x1b[1m"@ + text::joined(menuconfig::crumbs(t, d.stack, d.stack.len()), " > "@) + "\x1b[0m"@,
        "\x1b[2marrows/hjkl move  enter open or change  space toggle  y/n/m set  ? help  w why  s save  q quit\x1b[0m"@,
        ""@,
    ];
    let foot = menuconfig::at_most(menuconfig::footer(d), 4);
    let top = head + menuconfig::middle(t, d, height - 8);
    filling_fills(top, height - foot.len());
    let all = menuconfig::screen_lines(t, d, height);
    let full = menuconfig::at_least(top, height - foot.len());
    assert(all == full + foot);
    assert(full.subrange(0, top.len() as int)[0] == full[0]);
    assert(top[0] == head[0]);
    let told = menuconfig::footer(d);
    let n = foot.len() as int;
    assert forall|i: int| 0 <= i < n implies #[trigger] told[i] == all[height - n + i] by {
        assert(foot[i] == told[i]);
    }
}

/// A value that is being entered is shown with its symbol, and leaving with changes asks first.
pub proof fn what_is_asked_is_shown(d: Desk)
    ensures
        d.view matches Pane::Edit(symbol, buffer) ==> menuconfig::footer(d) == seq![
            symbol + " = "@ + buffer + "_   (enter to apply, esc to cancel)"@,
        ],
        d.view is List ==> menuconfig::footer(d) == d.status,
{
}

proof fn plain_text_is_cut(s: Seq<char>, i: int, left: nat)
    requires
        0 <= i <= s.len(),
        forall|j: int| 0 <= j < s.len() ==> #[trigger] s[j] != '\x1b',
    ensures
        s.len() - i <= left ==> menuconfig::clipped(s, i, left) == s.subrange(i, s.len() as int),
        s.len() - i > left ==> menuconfig::clipped(s, i, left) == s.subrange(i, i + left) + "\x1b[0m"@,
    decreases s.len() - i,
{
    if i < s.len() {
        assert(s[i] != '\x1b');
        if left > 0 {
            plain_text_is_cut(s, i + 1, (left - 1) as nat);
            if s.len() - i <= left {
                assert(seq![s[i]] + s.subrange(i + 1, s.len() as int) =~= s.subrange(i, s.len() as int));
            } else {
                assert(seq![s[i]] + (s.subrange(i + 1, i + left) + "\x1b[0m"@) =~= s.subrange(i, i + left) + "\x1b[0m"@);
            }
        } else {
            assert(s.subrange(i, i) + "\x1b[0m"@ =~= "\x1b[0m"@);
        }
    } else {
        assert(s.subrange(i, s.len() as int) =~= seq![]);
    }
}

/// A line that fits is drawn whole, and one that does not is cut at the edge and takes no colour beyond it.
pub proof fn lines_are_cut_at_the_edge(s: Seq<char>, width: nat)
    requires
        forall|j: int| 0 <= j < s.len() ==> #[trigger] s[j] != '\x1b',
    ensures
        s.len() <= width ==> menuconfig::clipped(s, 0, width) == s,
        s.len() > width ==> menuconfig::clipped(s, 0, width) == s.subrange(0, width as int) + "\x1b[0m"@,
{
    plain_text_is_cut(s, 0, width);
    assert(s.subrange(0, s.len() as int) =~= s);
}

/// A terminal tells its rows before its columns.
pub proof fn terminals_tell_rows_before_columns(rows: int, cols: int)
    requires
        0 < rows <= u64::MAX,
        0 < cols <= u64::MAX,
        rows <= usize::MAX,
        cols <= usize::MAX,
    ensures
        menuconfig::size_of(text::decimal(rows) + seq![' '] + text::decimal(cols)) == (cols, rows),
{
    digits_are_no_blanks(rows);
    digits_are_no_blanks(cols);
    readings::decimals_read_back(rows);
    readings::decimals_read_back(cols);
    sizes_are_two_numbers(text::decimal(rows), text::decimal(cols), rows, cols);
}

proof fn sizes_are_two_numbers(a: Seq<char>, b: Seq<char>, rows: int, cols: int)
    requires
        a.len() > 0,
        b.len() > 0,
        forall|i: int| 0 <= i < a.len() ==> !text::space(#[trigger] a[i]),
        forall|i: int| 0 <= i < b.len() ==> !text::space(#[trigger] b[i]),
        text::signed(a, 10) == Some(rows),
        text::signed(b, 10) == Some(cols),
        a[0] != '-',
        b[0] != '-',
        0 < rows <= u64::MAX,
        0 < cols <= u64::MAX,
        rows <= usize::MAX,
        cols <= usize::MAX,
    ensures
        menuconfig::size_of(a + seq![' '] + b) == (cols, rows),
{
    two_words_are_two(a, b);
    let w = text::words(a + seq![' '] + b, 0);
    assert(w[0] == a && w[1] == b);
}

proof fn two_words_are_two(a: Seq<char>, b: Seq<char>)
    requires
        a.len() > 0,
        b.len() > 0,
        forall|i: int| 0 <= i < a.len() ==> !text::space(#[trigger] a[i]),
        forall|i: int| 0 <= i < b.len() ==> !text::space(#[trigger] b[i]),
    ensures
        text::words(a + seq![' '] + b, 0) == seq![a, b],
{
    let none = Seq::<char>::empty();
    let rest = seq![' '] + b;
    readings::words_are_split_at_blanks(none, a, rest);
    assert(none + a + rest =~= a + seq![' '] + b);
    readings::words_are_split_at_blanks(seq![' '], b, none);
    assert(seq![' '] + b + none =~= rest);
    assert(text::words(none, 0).len() == 0);
    assert(seq![a] + (seq![b] + text::words(none, 0)) =~= seq![a, b]);
}

proof fn digits_are_no_blanks(n: int)
    requires
        n >= 0,
    ensures
        text::decimal(n).len() > 0,
        forall|i: int| 0 <= i < text::decimal(n).len() ==> !text::space(#[trigger] text::decimal(n)[i]),
{
    readings::numbers_read_back(n as nat, 10);
    let d = text::decimal(n);
    assert forall|i: int| 0 <= i < d.len() implies !text::space(#[trigger] d[i]) by {
        assert(0 <= text::digit(text::digits(n as nat, 10)[i]) < 10);
    }
}

/// Where one is, is told step by step: with every menu and choice that is entered, its title is told too.
pub proof fn titles_are_told_on_the_way(t: kcfg::Table, stack: Seq<(Spot, int)>, k: nat)
    requires
        1 < k <= stack.len(),
    ensures
        menuconfig::crumbs(t, stack, 1) == seq!["KinTane configuration"@],
        stack[k - 1].0 matches Spot::Menu(m) ==> menuconfig::crumbs(t, stack, k) == menuconfig::crumbs(
            t,
            stack,
            (k - 1) as nat,
        ).push(t.menus[m].title),
{
}

/// Of the requests those last that no later one for the same symbol follows, in their order.
pub proof fn the_last_requests_last(asked: Seq<resolve::Ask>, k: nat, a: int)
    requires
        0 <= a < k <= asked.len(),
    ensures
        (forall|b: int| a < b < asked.len() ==> (#[trigger] asked[b]).symbol != asked[a].symbol)
            ==> menuconfig::lasting(asked, k).contains(asked[a]),
        forall|q: int|
            0 <= q < menuconfig::lasting(asked, k).len() ==> lasts(asked, #[trigger] menuconfig::lasting(asked, k)[q]),
    decreases k,
{
    let all = menuconfig::lasting(asked, k);
    let before = menuconfig::lasting(asked, (k - 1) as nat);
    if k > 1 {
        the_last_requests_last(
            asked,
            (k - 1) as nat,
            if a < k - 1 {
                a
            } else {
                0
            },
        );
    } else {
        assert(before.len() == 0);
    }
    if !menuconfig::overridden(asked, k - 1) {
        assert(all == before.push(asked[k - 1]));
        assert(all[before.len() as int] == asked[k - 1]);
        if before.contains(asked[a]) {
            let q = before.index_of(asked[a]);
            assert(all[q] == asked[a]);
        }
        assert(stands_last(asked, k - 1));
        assert forall|q: int| 0 <= q < all.len() implies lasts(asked, #[trigger] all[q]) by {
            if q < before.len() {
                assert(all[q] == before[q]);
            }
        }
    }
}

/// Whether no request for the same symbol follows the one in this place.
pub open spec fn stands_last(asked: Seq<resolve::Ask>, i: int) -> bool {
    0 <= i < asked.len() && forall|b: int| i < b < asked.len() ==> (#[trigger] asked[b]).symbol != asked[i].symbol
}

/// Whether a request stands in a place that no other for the same symbol follows.
pub open spec fn lasts(asked: Seq<resolve::Ask>, x: resolve::Ask) -> bool {
    exists|i: int| #[trigger] stands_last(asked, i) && asked[i] == x
}

} // verus!
