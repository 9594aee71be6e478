//! Stored names, and the texts they are shown and found by.

use vstd::prelude::*;

use super::read;
use super::sound;
use crate::fat16;
use crate::text;

verus! {

/// The text a stored name is shown as.
pub open spec fn shown(n: Seq<u8>) -> Seq<char> {
    let base = text::trim_end(text::as_chars(n.subrange(0, 8)));
    let ext = text::trim_end(text::as_chars(n.subrange(8, 11)));
    if ext.len() == 0 {
        base
    } else {
        base + "."@ + ext
    }
}

/// A name that does not end in its dot.
pub open spec fn neat(c: Seq<char>) -> bool {
    fat16::dot(c, 0) < c.len() ==> fat16::extension(c).len() > 0
}

/// A name as it is found: without the dot, if it ends in one.
pub open spec fn tidy(c: Seq<char>) -> Seq<char> {
    if neat(c) {
        c
    } else {
        fat16::stem(c)
    }
}

/// The characters of a name as they are stored.
pub open spec fn raised(s: Seq<char>) -> Seq<char> {
    Seq::new(s.len(), |i: int| fat16::upper(s[i]) as char)
}

proof fn trim_spaces(s: Seq<char>, n: nat, k: int)
    requires
        s.len() > 0 ==> !text::space(s.last()),
        s.len() <= k <= s.len() + n,
    ensures
        text::before_space(s + Seq::new(n, |i: int| ' '), k) == s.len(),
    decreases k,
{
    let w = s + Seq::new(n, |i: int| ' ');
    if k > s.len() {
        assert(w[k - 1] == ' ');
        trim_spaces(s, n, k - 1);
    } else if k > 0 {
        assert(w[k - 1] == s.last());
    }
}

pub(crate) proof fn trim_padded(s: Seq<char>, n: nat)
    requires
        s.len() > 0 ==> !text::space(s.last()),
    ensures
        text::trim_end(s + Seq::new(n, |i: int| ' ')) == s,
{
    let w = s + Seq::new(n, |i: int| ' ');
    trim_spaces(s, n, w.len() as int);
    assert(w.subrange(0, s.len() as int) =~= s);
}

proof fn raised_ends_well(s: Seq<char>)
    requires
        fat16::all_name_chars(s),
    ensures
        s.len() > 0 ==> !text::space(raised(s).last()),
        forall|i: int| 0 <= i < s.len() ==> fat16::upper(#[trigger] s[i]) < 0x80,
{
    if s.len() > 0 {
        assert(fat16::name_char(s[s.len() - 1]));
        assert(raised(s).last() == fat16::upper(s[s.len() - 1]) as char);
    }
}

/// What a name is shown as once it was stored.
pub(crate) proof fn shown_of_stored(c: Seq<char>)
    requires
        fat16::stored(c) is Some,
    ensures
        ({
            let n = fat16::stored(c)->0;
            let base = raised(fat16::stem(c));
            let ext = raised(fat16::extension(c));
            &&& text::ascii(n)
            &&& text::trim_end(text::as_chars(n.subrange(0, 8))) == base
            &&& text::trim_end(text::as_chars(n.subrange(8, 11))) == ext
            &&& base.len() > 0
            &&& n[0] != 0
            &&& n[0] != 0xE5
        }),
{
    let n = fat16::stored(c)->0;
    let b = fat16::stem(c);
    let e = fat16::extension(c);
    fat16::dot_bounds(c, 0);
    raised_ends_well(b);
    raised_ends_well(e);
    assert forall|i: int| 0 <= i < n.len() implies #[trigger] n[i] < 0x80 by {
        if i < b.len() {
            assert(fat16::upper(b[i]) < 0x80);
        } else if 8 <= i < 8 + e.len() {
            assert(fat16::upper(e[i - 8]) < 0x80);
        }
    }
    assert(text::as_chars(n.subrange(0, 8)) =~= raised(b) + Seq::new((8 - b.len()) as nat, |i: int| ' '));
    trim_padded(raised(b), (8 - b.len()) as nat);
    assert(text::as_chars(n.subrange(8, 11)) =~= raised(e) + Seq::new((3 - e.len()) as nat, |i: int| ' '));
    trim_padded(raised(e), (3 - e.len()) as nat);
    assert(fat16::name_char(b[0]));
}

proof fn raised_folds(s: Seq<char>)
    requires
        fat16::all_name_chars(s),
    ensures
        text::folded(raised(s)) == text::folded(s),
{
    assert forall|i: int| 0 <= i < s.len() implies text::folded(raised(s))[i] == text::folded(s)[i] by {
        assert(fat16::name_char(s[i]));
        let c = s[i];
        let u = fat16::upper(c);
        assert((u as char) as int == u as int);
        if 'a' <= c <= 'z' {
            assert((c as int) as char == c);
        } else {
            assert((c as int) as u8 == c as int);
            assert(u as char == c);
        }
    }
    assert(text::folded(raised(s)) =~= text::folded(s));
}

proof fn split_at_dot(c: Seq<char>)
    ensures
        ({
            let b = fat16::stem(c);
            let e = fat16::extension(c);
            fat16::dot(c, 0) < c.len() ==> c == b + "."@ + e
        }),
        fat16::dot(c, 0) == c.len() ==> c == fat16::stem(c) && fat16::extension(c).len() == 0,
{
    fat16::dot_bounds(c, 0);
    reveal_strlit(".");
    let b = fat16::stem(c);
    let e = fat16::extension(c);
    if fat16::dot(c, 0) < c.len() {
        assert(c =~= b + "."@ + e);
    } else {
        assert(c =~= b);
    }
}

/// A neat name that was stored is shown as itself, but for the case of its letters.
pub(crate) proof fn shown_folds_back(c: Seq<char>)
    requires
        fat16::stored(c) is Some,
        neat(c),
    ensures
        text::folded(shown(fat16::stored(c)->0)) == text::folded(c),
{
    let n = fat16::stored(c)->0;
    let b = fat16::stem(c);
    let e = fat16::extension(c);
    fat16::dot_bounds(c, 0);
    shown_of_stored(c);
    raised_folds(b);
    raised_folds(e);
    split_at_dot(c);
    reveal_strlit(".");
    if e.len() > 0 {
        let whole = raised(b) + "."@ + raised(e);
        assert(shown(n) == whole);
        assert forall|i: int| 0 <= i < whole.len() implies text::folded(whole)[i] == text::folded(c)[i] by {
            if i < b.len() {
                assert(text::folded(raised(b))[i] == text::folded(b)[i]);
            } else if i > b.len() {
                assert(text::folded(raised(e))[i - b.len() - 1] == text::folded(e)[i - b.len() - 1]);
            }
        }
        assert(text::folded(whole) =~= text::folded(c));
    }
}

proof fn dot_of_folded(a: Seq<char>, b: Seq<char>, i: int)
    requires
        text::folded(a) == text::folded(b),
        0 <= i <= a.len(),
    ensures
        fat16::dot(a, i) == fat16::dot(b, i),
    decreases a.len() - i,
{
    assert(text::folded(a).len() == a.len() && text::folded(b).len() == b.len());
    if i < a.len() {
        assert(text::folded(a)[i] == text::lower(a[i]) && text::folded(b)[i] == text::lower(b[i]));
        assert(a[i] == '.' <==> b[i] == '.') by {
            lower_keeps(a[i], b[i]);
        }
        if a[i] != '.' {
            dot_of_folded(a, b, i + 1);
        }
    }
}

proof fn lower_keeps(x: char, y: char)
    requires
        text::lower(x) == text::lower(y),
    ensures
        x == '.' <==> y == '.',
        fat16::name_char(x) <==> fat16::name_char(y),
        fat16::name_char(x) ==> fat16::upper(x) == fat16::upper(y),
{
    if 'A' <= x <= 'Z' {
        assert(text::lower(x) as int == x as int + 32);
    }
    if 'A' <= y <= 'Z' {
        assert(text::lower(y) as int == y as int + 32);
    }
}

/// Two names that differ only in the case of their letters are stored as the same.
pub(crate) proof fn stored_of_folded(a: Seq<char>, b: Seq<char>)
    requires
        text::folded(a) == text::folded(b),
    ensures
        fat16::stored(a) == fat16::stored(b),
        neat(a) == neat(b),
{
    assert(text::folded(a).len() == a.len() && text::folded(b).len() == b.len());
    dot_of_folded(a, b, 0);
    fat16::dot_bounds(a, 0);
    fat16::dot_bounds(b, 0);
    assert forall|i: int| 0 <= i < a.len() implies (fat16::name_char(a[i]) <==> fat16::name_char(b[i])) && (
    fat16::name_char(a[i]) ==> fat16::upper(a[i]) == fat16::upper(b[i])) by {
        assert(text::folded(a)[i] == text::lower(a[i]) && text::folded(b)[i] == text::lower(b[i]));
        lower_keeps(a[i], b[i]);
    }
    let (ab, bb) = (fat16::stem(a), fat16::stem(b));
    let (ae, be) = (fat16::extension(a), fat16::extension(b));
    let d = fat16::dot(a, 0);
    assert(fat16::all_name_chars(ab) == fat16::all_name_chars(bb)) by {
        if fat16::all_name_chars(ab) {
            assert forall|i: int| 0 <= i < bb.len() implies fat16::name_char(#[trigger] bb[i]) by {
                assert(fat16::name_char(ab[i]));
                assert(a[i] == ab[i] && b[i] == bb[i]);
            }
        }
        if fat16::all_name_chars(bb) {
            assert forall|i: int| 0 <= i < ab.len() implies fat16::name_char(#[trigger] ab[i]) by {
                assert(fat16::name_char(bb[i]));
                assert(a[i] == ab[i] && b[i] == bb[i]);
            }
        }
    }
    assert(fat16::all_name_chars(ae) == fat16::all_name_chars(be)) by {
        if fat16::all_name_chars(ae) {
            assert forall|i: int| 0 <= i < be.len() implies fat16::name_char(#[trigger] be[i]) by {
                assert(fat16::name_char(ae[i]));
                assert(a[d + 1 + i] == ae[i] && b[d + 1 + i] == be[i]);
            }
        }
        if fat16::all_name_chars(be) {
            assert forall|i: int| 0 <= i < ae.len() implies fat16::name_char(#[trigger] ae[i]) by {
                assert(fat16::name_char(be[i]));
                assert(a[d + 1 + i] == ae[i] && b[d + 1 + i] == be[i]);
            }
        }
    }
    if fat16::stored(a) is Some {
        let x = fat16::stored(a)->0;
        let y = fat16::stored(b)->0;
        assert forall|i: int| 0 <= i < 11 implies x[i] == y[i] by {
            if i < ab.len() {
                assert(fat16::name_char(ab[i]));
                assert(a[i] == ab[i] && b[i] == bb[i]);
            } else if 8 <= i < 8 + ae.len() {
                assert(fat16::name_char(ae[i - 8]));
                assert(a[d + 1 + (i - 8)] == ae[i - 8] && b[d + 1 + (i - 8)] == be[i - 8]);
            }
        }
        assert(x =~= y);
    }
}

/// A name is stored as the same with and without a dot at its end.
pub(crate) proof fn tidy_is_neat(c: Seq<char>)
    requires
        fat16::stored(c) is Some,
    ensures
        neat(tidy(c)),
        fat16::stored(tidy(c)) == fat16::stored(c),
{
    if !neat(c) {
        let b = fat16::stem(c);
        fat16::dot_bounds(c, 0);
        no_dot(c, fat16::dot(c, 0), 0);
        assert(fat16::stem(b) =~= b);
        assert(fat16::extension(b) =~= seq![]);
        assert(fat16::extension(c) =~= seq![]);
    }
}

proof fn no_dot(c: Seq<char>, d: int, i: int)
    requires
        0 <= i <= d <= c.len(),
        forall|k: int| 0 <= k < d ==> c[k] != '.',
    ensures
        fat16::dot(c.subrange(0, d), i) == d,
    decreases d - i,
{
    if i < d {
        assert(c.subrange(0, d)[i] == c[i]);
        no_dot(c, d, i + 1);
    }
}

/// A stored name is found by a neat name exactly if that is stored as the same.
pub(crate) proof fn found_by(n: Seq<u8>, d: Seq<char>)
    requires
        sound::good_name(n),
        fat16::stored(d) is Some,
        neat(d),
    ensures
        (text::folded(shown(n)) == text::folded(d)) <==> fat16::stored(d) == Some(n),
{
    let c0 = choose|c: Seq<char>| fat16::stored(c) == Some(n);
    tidy_is_neat(c0);
    let c = tidy(c0);
    shown_folds_back(c);
    if text::folded(shown(n)) == text::folded(d) {
        stored_of_folded(c, d);
    }
    if fat16::stored(d) == Some(n) {
        shown_folds_back(d);
    }
}

proof fn next_of_folded(a: Seq<char>, b: Seq<char>, i: int)
    requires
        text::folded(a) == text::folded(b),
        0 <= i <= a.len(),
    ensures
        text::next_of(a, '/', i) == text::next_of(b, '/', i),
    decreases a.len() - i,
{
    assert(text::folded(a).len() == a.len() && text::folded(b).len() == b.len());
    if i < a.len() {
        assert(text::folded(a)[i] == text::lower(a[i]) && text::folded(b)[i] == text::lower(b[i]));
        if a[i] != '/' && b[i] != '/' {
            next_of_folded(a, b, i + 1);
        }
    }
}

/// Paths that differ only in the case of their letters have components that do.
proof fn pieces_of_folded(a: Seq<char>, b: Seq<char>, i: int)
    requires
        text::folded(a) == text::folded(b),
        0 <= i <= a.len(),
    ensures
        text::pieces(a, '/', i).len() == text::pieces(b, '/', i).len(),
        forall|k: int|
            0 <= k < text::pieces(a, '/', i).len() ==> text::folded(#[trigger] text::pieces(a, '/', i)[k])
                == text::folded(text::pieces(b, '/', i)[k]),
    decreases a.len() - i,
{
    assert(text::folded(a).len() == a.len() && text::folded(b).len() == b.len());
    let j = text::next_of(a, '/', i);
    next_of_folded(a, b, i);
    text::next_of_bounds(a, '/', i);
    parts_of_folded(a, b, i, j);
    parts_of_folded(a, b, i, a.len() as int);
    if j < a.len() {
        pieces_of_folded(a, b, j + 1);
        let (x, y) = (text::pieces(a, '/', j + 1), text::pieces(b, '/', j + 1));
        assert forall|k: int| 0 <= k < text::pieces(a, '/', i).len() implies text::folded(
            #[trigger] text::pieces(a, '/', i)[k],
        ) == text::folded(text::pieces(b, '/', i)[k]) by {
            if k > 0 {
                assert(text::pieces(a, '/', i)[k] == x[k - 1]);
                assert(text::pieces(b, '/', i)[k] == y[k - 1]);
            }
        }
    }
}

proof fn parts_of_folded(a: Seq<char>, b: Seq<char>, i: int, j: int)
    requires
        text::folded(a) == text::folded(b),
        0 <= i <= j <= a.len(),
    ensures
        text::folded(a.subrange(i, j)) == text::folded(b.subrange(i, j)),
{
    assert(text::folded(a).len() == a.len() && text::folded(b).len() == b.len());
    let (x, y) = (text::folded(a.subrange(i, j)), text::folded(b.subrange(i, j)));
    assert forall|k: int| 0 <= k < x.len() implies #[trigger] x[k] == y[k] by {
        assert(text::folded(a)[i + k] == text::lower(a[i + k]));
        assert(text::folded(b)[i + k] == text::lower(b[i + k]));
    }
    assert(x =~= y);
}

proof fn pieces_behind(s: Seq<char>, i: int)
    requires
        0 <= i <= s.len(),
    ensures
        text::pieces(seq!['/'] + s, '/', i + 1) == text::pieces(s, '/', i),
    decreases s.len() - i,
{
    let t = seq!['/'] + s;
    let j = text::next_of(s, '/', i);
    next_behind(s, i);
    text::next_of_bounds(s, '/', i);
    assert(t.subrange(i + 1, j + 1) =~= s.subrange(i, j));
    assert(t.subrange(i + 1, t.len() as int) =~= s.subrange(i, s.len() as int));
    if j < s.len() {
        pieces_behind(s, j + 1);
    }
}

proof fn next_behind(s: Seq<char>, i: int)
    requires
        0 <= i <= s.len(),
    ensures
        text::next_of(seq!['/'] + s, '/', i + 1) == text::next_of(s, '/', i) + 1,
    decreases s.len() - i,
{
    if i < s.len() && s[i] != '/' {
        next_behind(s, i + 1);
    }
}

proof fn full_pieces_are_steps(ps: Seq<Seq<char>>, i: int)
    requires
        0 <= i <= ps.len(),
        forall|k: int| i <= k < ps.len() ==> (#[trigger] ps[k]).len() > 0,
    ensures
        read::steps(ps, i) == ps.subrange(i, ps.len() as int),
    decreases ps.len() - i,
{
    if i < ps.len() {
        full_pieces_are_steps(ps, i + 1);
        assert(seq![ps[i]] + ps.subrange(i + 1, ps.len() as int) =~= ps.subrange(i, ps.len() as int));
    } else {
        assert(ps.subrange(i, ps.len() as int) =~= seq![]);
    }
}

/// The components of a path are its pieces, in whatever case and behind a slash as well, where none
/// is empty.
pub(crate) proof fn steps_of_own_path(own: Seq<char>, path: Seq<char>)
    requires
        text::folded(path) == text::folded(own),
        forall|k: int| 0 <= k < text::pieces(own, '/', 0).len() ==> (#[trigger] text::pieces(own, '/', 0)[k]).len() > 0,
    ensures
        read::steps_of(path) == text::pieces(path, '/', 0),
        read::steps_of(seq!['/'] + path) == text::pieces(path, '/', 0),
        text::pieces(path, '/', 0).len() == text::pieces(own, '/', 0).len(),
        forall|k: int|
            0 <= k < text::pieces(path, '/', 0).len() ==> text::folded(#[trigger] text::pieces(path, '/', 0)[k])
                == text::folded(text::pieces(own, '/', 0)[k]),
{
    pieces_of_folded(path, own, 0);
    let ps = text::pieces(path, '/', 0);
    assert forall|k: int| 0 <= k < ps.len() implies (#[trigger] ps[k]).len() > 0 by {
        assert(text::folded(ps[k]).len() == text::folded(text::pieces(own, '/', 0)[k]).len());
        assert(text::pieces(own, '/', 0)[k].len() > 0);
    }
    full_pieces_are_steps(ps, 0);
    assert(ps.subrange(0, ps.len() as int) =~= ps);
    let t = seq!['/'] + path;
    pieces_behind(path, 0);
    let all = text::pieces(t, '/', 0);
    assert(text::next_of(t, '/', 0) == 0);
    assert(t.subrange(0, 0) =~= seq![]);
    assert(all == seq![t.subrange(0, 0)] + ps);
    assert forall|k: int| 1 <= k < all.len() implies (#[trigger] all[k]).len() > 0 by {
        assert(all[k] == ps[k - 1]);
    }
    full_pieces_are_steps(all, 1);
    assert(all.subrange(1, all.len() as int) =~= ps);
    assert(all[0].len() == 0);
}

} // verus!
