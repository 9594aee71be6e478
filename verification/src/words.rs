//! What counts as a word, a character or a field in a line of source, said of the characters themselves.

use vstd::prelude::*;
use vstd::string::*;

use crate::bytes;
use crate::lint;
use crate::lint::Doc;
use crate::paths;
use crate::text;

verus! {

/// A word is found where nothing that could belong to it stands beside it, and a longer word is another.
pub proof fn words_are_whole(a: Seq<char>, word: Seq<char>, b: Seq<char>, longer: Seq<char>)
    requires
        word.len() > 0,
        a.len() > 0 ==> !lint::word_char(a.last()),
        b.len() > 0 ==> !lint::word_char(b[0]),
        forall|i: int| 0 <= i < longer.len() ==> lint::word_char(#[trigger] longer[i]),
        longer.len() != word.len(),
    ensures
        lint::has_word(a + word + b, word),
        !lint::has_word(longer, word),
{
    let s = a + word + b;
    let n = a.len() as int;
    assert(s.subrange(n, n + word.len()) =~= word);
    if n > 0 {
        assert(s[n - 1] == a.last());
    }
    if b.len() > 0 {
        assert(s[n + word.len()] == b[0]);
    }
    assert(lint::word_at(s, word, n));
    if lint::has_word(longer, word) {
        let i = choose|i: int| #[trigger] lint::word_at(longer, word, i);
        if i > 0 {
            assert(lint::word_char(longer[i - 1]));
        }
        if i + word.len() < longer.len() {
            assert(lint::word_char(longer[i + word.len()]));
        }
    }
}

/// Letters, digits and the underscore belong to words; blanks and brackets do not.
pub proof fn words_are_made_of_letters(c: char)
    ensures
        'a' <= c <= 'z' || 'A' <= c <= 'Z' || '0' <= c <= '9' || c == '_' ==> lint::word_char(c),
        c == ' ' || c == '(' || c == ')' || c == '{' || c == '}' || c == '<' || c == '>' || c == ';' || c == ':' || c
            == ',' || c == '#' || c == '[' || c == ']' ==> !lint::word_char(c),
{
}

/// Inside a string or a character a backslash takes the next character with it, so that a quotation mark
/// behind one ends neither.
pub proof fn escapes_do_not_end_strings(b: Seq<char>, i: int)
    requires
        0 <= i < b.len(),
        b[i] == '\\',
    ensures
        lint::stripped(b, i, true, false) == seq![' '] + lint::stripped(b, i + 2, true, false),
        lint::stripped(b, i, false, true) == seq![' '] + lint::stripped(b, i + 2, false, true),
        lint::stripped(b, i, false, false) == seq!['\\'] + lint::stripped(b, i + 1, false, false),
{
}

/// A lifetime starts no character: the quotation mark stands, and what follows counts. A character between
/// two of them does not.
pub proof fn lifetimes_are_no_characters(b: Seq<char>, i: int)
    requires
        0 <= i,
        i + 2 < b.len(),
        b[i] == '\'',
    ensures
        text::ascii_letter(b[i + 1]) && b[i + 2] != '\'' ==> lint::stripped(b, i, false, false) == seq!['\'']
            + lint::stripped(b, i + 1, false, false),
        b[i + 1] != '\\' && b[i + 1] != '\'' && b[i + 2] == '\'' && (i + 3 == b.len() || !text::letter(b[i + 3]) && b[i
            + 3] != '_') ==> lint::stripped(b, i, false, false) == seq![' ', ' ', '\''] + lint::stripped(
            b,
            i + 3,
            false,
            false,
        ),
{
    let c = b[i + 1];
    if text::ascii_letter(c) {
        assert(text::letter(c));
    }
    if c != '\\' && c != '\'' && b[i + 2] == '\'' && (i + 3 == b.len() || !text::letter(b[i + 3]) && b[i + 3] != '_') {
        let two = lint::stripped(b, i + 2, false, true);
        let one = lint::stripped(b, i + 1, false, true);
        let rest = lint::stripped(b, i + 3, false, false);
        assert(two == seq!['\''] + rest);
        assert(one == seq![' '] + two);
        assert(lint::stripped(b, i, false, false) == seq![' '] + one);
        assert(seq![' '] + (seq![' '] + (seq!['\''] + rest)) =~= seq![' ', ' ', '\''] + rest);
    }
}

/// A `cfg` for tests is never one that is looked for, and any other is, as an attribute of what follows or
/// of what is around.
pub proof fn cfgs_for_tests_are_exempt(line: Seq<char>, i: int)
    ensures
        bytes::stands_at(line, i, "#[cfg(test)]"@) || bytes::stands_at(line, i, "#![cfg(test)]"@) ==> !lint::cfg_at(line, i),
        bytes::stands_at(line, i, "#[cfg("@) && !bytes::stands_at(line, i, "#[cfg(test)]"@) ==> lint::cfg_at(line, i),
        bytes::stands_at(line, i, "#![cfg("@) && !bytes::stands_at(line, i, "#![cfg(test)]"@) ==> lint::cfg_at(line, i),
{
    reveal_strlit("#[cfg(");
    reveal_strlit("#![cfg(");
    reveal_strlit("#[cfg(test)]");
    reveal_strlit("#![cfg(test)]");
    let (a, b) = ("#[cfg("@, "#![cfg("@);
    if bytes::stands_at(line, i, "#[cfg(test)]"@) {
        assert(line.subrange(i, i + 12)[1] == '[');
        if bytes::stands_at(line, i, b) {
            assert(line.subrange(i, i + 7)[1] == '!');
        }
    }
    if bytes::stands_at(line, i, "#![cfg(test)]"@) {
        assert(line.subrange(i, i + 13)[1] == '!');
        if bytes::stands_at(line, i, a) {
            assert(line.subrange(i, i + 6)[1] == '[');
        }
    }
}

proof fn depth_without_parentheses(s: Seq<char>, q: int, from: int, k: int)
    requires
        0 <= q <= from <= k <= s.len(),
        forall|j: int| from <= j < k ==> #[trigger] s[j] != '(' && s[j] != ')',
    ensures
        lint::nest(s, q, k) == lint::nest(s, q, from),
    decreases k - from,
{
    if from < k {
        assert(s[k - 1] != '(' && s[k - 1] != ')');
        depth_without_parentheses(s, q, from, k - 1);
    }
}

/// The fields of a struct without names begin with its parenthesis and end with the one that closes it.
pub proof fn fields_stand_between_parentheses(name: Seq<char>, fields: Seq<char>)
    requires
        forall|i: int| 0 <= i < name.len() ==> #[trigger] name[i] != '(' && name[i] != ')',
        forall|i: int| 0 <= i < fields.len() ==> #[trigger] fields[i] != '(' && fields[i] != ')',
    ensures
        lint::in_fields("struct"@ + seq![' '] + name + seq!['('] + fields),
        !lint::in_fields("struct"@ + seq![' '] + name + seq!['('] + fields + seq![')']),
        !lint::in_fields(name),
{
    reveal_strlit("struct");
    let head = "struct"@ + seq![' '] + name;
    assert forall|i: int| 0 <= i < head.len() implies #[trigger] head[i] != '(' && head[i] != ')' by {
        if i >= 7 {
            assert(head[i] == name[i - 7]);
        }
    }
    fields_begin(name, fields);
    fields_end(head, fields);
    if lint::in_fields(name) {
        let (i, p) = choose|i: int, p: int|
            i < p && #[trigger] lint::heads_struct(name, i) && #[trigger] lint::unclosed(name, p);
        assert(name[p] != '(');
    }
}

proof fn fields_begin(name: Seq<char>, fields: Seq<char>)
    requires
        forall|i: int| 0 <= i < fields.len() ==> #[trigger] fields[i] != '(' && fields[i] != ')',
    ensures
        lint::in_fields("struct"@ + seq![' '] + name + seq!['('] + fields),
{
    let head = "struct"@ + seq![' '] + name;
    let s = head + seq!['('] + fields;
    let q = head.len() as int;
    structs_are_headed(name + seq!['('] + fields);
    assert(s =~= "struct"@ + seq![' '] + (name + seq!['('] + fields));
    opened_fields_stay_open(head, fields);
    assert(lint::heads_struct(s, 0) && lint::unclosed(s, q));
}

proof fn structs_are_headed(rest: Seq<char>)
    ensures
        lint::heads_struct("struct"@ + seq![' '] + rest, 0),
        "struct"@.len() == 6,
{
    reveal_strlit("struct");
    let s = "struct"@ + seq![' '] + rest;
    assert(s.subrange(0, 6) =~= "struct"@);
    assert(s[6] == ' ');
    assert(lint::word_at(s, "struct"@, 0));
    let none = s.subrange(0, 0);
    assert(none.len() == 0);
    assert(text::before_space(none, 0) == 0);
    assert(text::trim_end(none).len() == 0);
}

proof fn opened_fields_stay_open(head: Seq<char>, fields: Seq<char>)
    requires
        forall|i: int| 0 <= i < fields.len() ==> #[trigger] fields[i] != '(' && fields[i] != ')',
    ensures
        lint::unclosed(head + seq!['('] + fields, head.len() as int),
{
    let s = head + seq!['('] + fields;
    let q = head.len() as int;
    assert(s[q] == '(');
    assert(lint::nest(s, q, q) == 0);
    assert(lint::nest(s, q, q + 1) == 1);
    assert forall|k: int| q < k <= s.len() implies #[trigger] lint::nest(s, q, k) > 0 by {
        assert forall|j: int| q + 1 <= j < k implies #[trigger] s[j] != '(' && s[j] != ')' by {
            assert(s[j] == fields[j - q - 1]);
        }
        depth_without_parentheses(s, q, q + 1, k);
    }
}

proof fn fields_end(head: Seq<char>, fields: Seq<char>)
    requires
        forall|i: int| 0 <= i < head.len() ==> #[trigger] head[i] != '(' && head[i] != ')',
        forall|i: int| 0 <= i < fields.len() ==> #[trigger] fields[i] != '(' && fields[i] != ')',
    ensures
        !lint::in_fields(head + seq!['('] + fields + seq![')']),
{
    let t = head + seq!['('] + fields + seq![')'];
    let q = head.len() as int;
    if lint::in_fields(t) {
        let (i, p) = choose|i: int, p: int| i < p && #[trigger] lint::heads_struct(t, i) && #[trigger] lint::unclosed(t, p);
        only_one_opens(head, fields, t, p);
        closed_fields_are_closed(head, fields);
        assert(lint::nest(t, p, t.len() as int) > 0);
    }
}

proof fn closed_fields_are_closed(head: Seq<char>, fields: Seq<char>)
    requires
        forall|i: int| 0 <= i < fields.len() ==> #[trigger] fields[i] != '(' && fields[i] != ')',
    ensures
        ({
            let t = head + seq!['('] + fields + seq![')'];
            lint::nest(t, head.len() as int, t.len() as int) == 0
        }),
{
    let t = head + seq!['('] + fields + seq![')'];
    let q = head.len() as int;
    assert(t[q] == '(');
    assert(lint::nest(t, q, q) == 0);
    assert(lint::nest(t, q, q + 1) == 1);
    let end = t.len() - 1;
    assert forall|j: int| q + 1 <= j < end implies #[trigger] t[j] != '(' && t[j] != ')' by {
        assert(t[j] == fields[j - q - 1]);
    }
    depth_without_parentheses(t, q, q + 1, end);
    assert(t[end] == ')');
    assert(lint::nest(t, q, end + 1) == 0);
}

proof fn only_one_opens(head: Seq<char>, fields: Seq<char>, t: Seq<char>, p: int)
    requires
        forall|i: int| 0 <= i < fields.len() ==> #[trigger] fields[i] != '(' && fields[i] != ')',
        forall|i: int| 0 <= i < head.len() ==> #[trigger] head[i] != '(',
        t == head + seq!['('] + fields + seq![')'],
        0 <= p < t.len(),
        t[p] == '(',
    ensures
        p == head.len(),
{
    let q = head.len() as int;
    if p < q {
        assert(t[p] == head[p]);
    } else if q < p < t.len() - 1 {
        assert(t[p] == fields[p - q - 1]);
    }
}

/// Files are looked at in the order of their paths, every one of them.
pub proof fn files_are_in_order(files: Seq<Doc>, n: nat, i: int)
    requires
        0 <= i < n <= files.len(),
    ensures
        lint::by_path(files, n).len() == n,
        lint::by_path(files, n).contains(files[i]),
        forall|a: int, b: int|
            0 <= a <= b < n ==> !paths::path_before(
                (#[trigger] lint::by_path(files, n)[b]).path,
                (#[trigger] lint::by_path(files, n)[a]).path,
            ),
    decreases n,
{
    let before = lint::by_path(files, (n - 1) as nat);
    let x = files[n - 1];
    let at = lint::slot(before, x.path, 0);
    slots_are_inside(before, x.path, 0);
    if n > 1 {
        files_are_in_order(
            files,
            (n - 1) as nat,
            if i < n - 1 {
                i
            } else {
                0
            },
        );
    } else {
        assert(before.len() == 0);
    }
    let all = lint::by_path(files, n);
    assert(all == before.insert(at, x));
    assert(all[at] == x);
    assert forall|a: int, b: int| 0 <= a <= b < n implies !paths::path_before((#[trigger] all[b]).path, (
    #[trigger] all[a]).path) by {
        placed_in_order(before, x, at, a, b);
    }
    if i < n - 1 {
        let q = before.index_of(files[i]);
        if q < at {
            assert(all[q] == files[i]);
        } else {
            assert(all[q + 1] == files[i]);
        }
    }
}

proof fn placed_in_order(before: Seq<Doc>, x: Doc, at: int, a: int, b: int)
    requires
        0 <= at <= before.len(),
        0 <= a <= b <= before.len(),
        forall|i: int, j: int|
            0 <= i <= j < before.len() ==> !paths::path_before((#[trigger] before[j]).path, (#[trigger] before[i]).path),
        forall|j: int| 0 <= j < at ==> !paths::path_before(x.path, (#[trigger] before[j]).path),
        at < before.len() ==> paths::path_before(x.path, before[at].path),
    ensures
        !paths::path_before(before.insert(at, x)[b].path, before.insert(at, x)[a].path),
{
    let all = before.insert(at, x);
    let p = if a < at {
        a
    } else {
        a - 1
    };
    let q = if b < at {
        b
    } else {
        b - 1
    };
    if a != at {
        assert(all[a] == before[p]);
    }
    if b != at {
        assert(all[b] == before[q]);
    }
    if a == at && b == at {
        if paths::path_before(x.path, x.path) {
            paths::path_order_is_total(x.path, x.path);
        }
    } else if a == at {
        if paths::path_before(before[q].path, x.path) {
            paths::path_order_is_transitive(before[q].path, x.path, before[at].path);
            assert(!paths::path_before(before[q].path, before[at].path));
        }
    } else if b != at {
        assert(!paths::path_before(before[q].path, before[p].path));
    }
}

proof fn slots_are_inside(files: Seq<Doc>, path: Seq<char>, i: int)
    requires
        0 <= i <= files.len(),
    ensures
        i <= lint::slot(files, path, i) <= files.len(),
        forall|j: int| i <= j < lint::slot(files, path, i) ==> !paths::path_before(path, (#[trigger] files[j]).path),
        lint::slot(files, path, i) < files.len() ==> paths::path_before(
            path,
            files[lint::slot(files, path, i)].path,
        ),
    decreases files.len() - i,
{
    if i < files.len() && !paths::path_before(path, files[i].path) {
        slots_are_inside(files, path, i + 1);
    }
}

} // verus!
