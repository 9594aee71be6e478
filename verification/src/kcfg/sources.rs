//! How the files of a configuration are read one from another, and how help is read, said of the lines and
//! the paths themselves.

use vstd::prelude::*;
use vstd::string::*;

use super::parse;
use super::parse::Doc;
use super::parse::Reading;
use crate::readings;
use crate::text;

verus! {

/// A file that is named without a directory of its own stands in the directory of the one it is named
/// from; a path from the root is itself.
pub proof fn files_stand_beside_each_other(dir: Seq<char>, name: Seq<char>, target: Seq<char>)
    requires
        forall|i: int| 0 <= i < name.len() ==> #[trigger] name[i] != '/',
    ensures
        target.len() == 0 || target[0] != '/' ==> parse::beside(dir + seq!['/'] + name, target) == dir + seq!['/']
            + target,
        target.len() == 0 || target[0] != '/' ==> parse::beside(name, target) == target,
        target.len() > 0 && target[0] == '/' ==> parse::beside(dir, target) == target,
{
    let path = dir + seq!['/'] + name;
    let n = dir.len() as int;
    assert forall|j: int| n < j < path.len() implies #[trigger] path[j] != '/' by {
        assert(path[j] == name[j - n - 1]);
    }
    slashes_are_last(path, n, path.len() as int);
    slashes_are_last(name, -1, name.len() as int);
    assert(path.subrange(0, n + 1) =~= dir + seq!['/']);
    assert(name.subrange(0, 0) + target =~= target);
}

proof fn slashes_are_last(p: Seq<char>, n: int, i: int)
    requires
        -1 <= n < i <= p.len() || n == -1 && i == 0,
        n >= 0 ==> p[n] == '/',
        forall|j: int| n < j < i ==> #[trigger] p[j] != '/',
    ensures
        parse::last_slash(p, i) == n,
    decreases i,
{
    if n < i - 1 {
        assert(p[i - 1] != '/');
        slashes_are_last(p, n, i - 1);
    }
}

/// Quotation marks around a text come off, and a text without them stays.
pub proof fn quotation_marks_come_off(s: Seq<char>)
    ensures
        parse::unquoted(seq!['"'] + s + seq!['"']) == s,
        s.len() > 0 && s[0] != '"' || s.len() > 0 && s.last() != '"' || s.len() < 2 ==> parse::unquoted(s) == s,
{
    let q = seq!['"'] + s + seq!['"'];
    assert(q.subrange(1, q.len() - 1) =~= s);
}

/// A file that has been read adds nothing, however often it is named; one that is not there is an error that
/// names it.
pub proof fn files_are_read_once(
    files: Seq<Doc>,
    entry: Seq<char>,
    path: Seq<char>,
    base: Option<int>,
    t: super::Table,
    seen: Seq<bool>,
    k: int,
)
    requires
        seen.len() == files.len(),
        0 <= k <= files.len(),
        k < files.len() ==> files[k].path == path,
        forall|j: int| 0 <= j < k ==> (#[trigger] files[j]).path != path,
    ensures
        k < files.len() && seen[k] ==> parse::file_read(files, entry, path, base, t, seen) == Ok::<
            (super::Table, Seq<bool>),
            parse::Wrong,
        >((t, seen)),
        k == files.len() ==> parse::file_read(files, entry, path, base, t, seen) is Err && parse::file_read(
            files,
            entry,
            path,
            base,
            t,
            seen,
        )->Err_0.file == path,
{
    the_first_file(files, path, k, 0);
}

proof fn the_first_file(files: Seq<Doc>, path: Seq<char>, k: int, i: int)
    requires
        0 <= i <= k <= files.len(),
        k < files.len() ==> files[k].path == path,
        forall|j: int| i <= j < k ==> (#[trigger] files[j]).path != path,
    ensures
        parse::doc_from(files, path, i) == if k < files.len() {
            Some(k)
        } else {
            None
        },
    decreases k - i,
{
    if i < k {
        assert(files[i].path != path);
        the_first_file(files, path, k, i + 1);
    }
}

/// A file that is sourced is read where it is named, in the menu that is open there, from the directory of
/// the first file; reading goes on with what it gave, and fails where it fails.
pub proof fn sourced_files_are_read_in_place(
    files: Seq<Doc>,
    dir: Seq<char>,
    name: Seq<char>,
    path: Seq<char>,
    ls: Seq<Seq<char>>,
    i: int,
    r: Reading,
    base: Option<int>,
    seen: Seq<bool>,
    target: Seq<char>,
)
    requires
        0 <= i < ls.len(),
        text::trimmed(ls[i]) == "source"@ + seq![' ', '"'] + target + seq!['"'],
        target.len() > 0,
        target[0] != '/',
        forall|j: int| 0 <= j < name.len() ==> #[trigger] name[j] != '/',
    ensures
        ({
            let entry = dir + seq!['/'] + name;
            let inner = parse::file_read(files, entry, dir + seq!['/'] + target, r.menu, r.table, seen);
            let outer = parse::lines_read(files, entry, path, ls, i, r, base, seen);
            &&& inner is Err ==> outer == inner
            &&& outer is Ok ==> inner is Ok && outer == parse::lines_read(
                files,
                entry,
                path,
                ls,
                i + 1,
                Reading { table: inner->Ok_0.0, ..r },
                base,
                inner->Ok_0.1,
            )
        }),
{
    let entry = dir + seq!['/'] + name;
    let s = text::trimmed(ls[i]);
    let quoted = seq!['"'] + target + seq!['"'];
    reveal_strlit("source");
    reveal_strlit("help");
    let word = "source"@;
    let rest = seq![' '] + quoted;
    assert(s =~= word + rest);
    assert forall|j: int| 0 <= j < word.len() implies !text::space(#[trigger] s[j]) by {
        assert(s[j] == word[j]);
    }
    assert(s[word.len() as int] == ' ');
    readings::words_end(s, word.len() as int, 0);
    assert(s.subrange(0, word.len() as int) =~= word);
    assert(s.subrange(word.len() as int, s.len() as int) =~= rest);
    quotation_marks_come_off(target);
    assert(s[0] == 's');
    assert(text::trimmed(rest) == quoted) by {
        readings::blanks_end(rest, 1, 0);
        assert(text::trim_start(rest) =~= quoted);
        assert(quoted.last() == '"');
        assert(text::before_space(quoted, quoted.len() as int) == quoted.len());
        assert(quoted.subrange(0, quoted.len() as int) =~= quoted);
    }
    files_stand_beside_each_other(dir, name, target);
}

/// A file that ends with a choice or a menu open is refused, and one that ends as it began gives what was
/// read.
pub proof fn blocks_are_closed_at_the_end(
    files: Seq<Doc>,
    entry: Seq<char>,
    path: Seq<char>,
    ls: Seq<Seq<char>>,
    r: Reading,
    base: Option<int>,
    seen: Seq<bool>,
)
    ensures
        ({
            let out = parse::lines_read(files, entry, path, ls, ls.len() as int, r, base, seen);
            &&& out is Ok <==> r.choice is None && r.menu == base
            &&& out is Ok ==> out->Ok_0 == (r.table, seen)
            &&& out is Err ==> out->Err_0.file == path && out->Err_0.line == ls.len()
        }),
{
}

proof fn help_ends(ls: Seq<Seq<char>>, m: int, k: int, i: int)
    requires
        0 <= i <= k <= ls.len(),
        forall|j: int|
            i <= j < k ==> text::trimmed(#[trigger] ls[j]).len() == 0 || parse::margin(ls[j], 0) > m,
        k < ls.len() ==> text::trimmed(ls[k]).len() > 0 && parse::margin(ls[k], 0) <= m,
    ensures
        parse::help_end(ls, i, m) == k,
    decreases k - i,
{
    if i < k {
        assert(text::trimmed(ls[i]).len() == 0 || parse::margin(ls[i], 0) > m);
        help_ends(ls, m, k, i + 1);
    }
}

/// Help is what follows its line as far as it stands further in, blank lines with it: it goes to the symbol
/// that is open and to no other, and reading goes on behind it.
pub proof fn help_goes_to_the_symbol(
    files: Seq<Doc>,
    entry: Seq<char>,
    path: Seq<char>,
    ls: Seq<Seq<char>>,
    i: int,
    k: int,
    r: Reading,
    base: Option<int>,
    seen: Seq<bool>,
)
    requires
        0 <= i < k <= ls.len(),
        text::trimmed(ls[i]) == "help"@,
        forall|j: int|
            i < j < k ==> text::trimmed(#[trigger] ls[j]).len() == 0 || parse::margin(ls[j], 0) > parse::margin(
                ls[i],
                0,
            ),
        k < ls.len() ==> text::trimmed(ls[k]).len() > 0 && parse::margin(ls[k], 0) <= parse::margin(ls[i], 0),
        r.cur is Some ==> 0 <= r.cur->0 < r.table.symbols.len(),
    ensures
        r.cur is None ==> parse::lines_read(files, entry, path, ls, i, r, base, seen) is Err,
        r.cur is Some ==> {
            let at = r.cur->0;
            let s = super::Sym { help: Some(text::trimmed(parse::help_lines(ls, i + 1, k))), ..r.table.symbols[at] };
            let t = super::Table { symbols: r.table.symbols.update(at, s), ..r.table };
            parse::lines_read(files, entry, path, ls, i, r, base, seen) == parse::lines_read(
                files,
                entry,
                path,
                ls,
                k,
                Reading { table: t, ..r },
                base,
                seen,
            )
        },
{
    reveal_strlit("help");
    reveal_strlit("source");
    let s = text::trimmed(ls[i]);
    readings::words_end(s, 4, 0);
    assert(s.subrange(0, 4) =~= s);
    assert("help"@.len() != "source"@.len());
    help_ends(ls, parse::margin(ls[i], 0), k, i + 1);
    assert(s[0] == 'h');
}

/// The lines of a help text are the lines that were read, each without the blanks around it.
pub proof fn help_keeps_its_lines(ls: Seq<Seq<char>>, i: int, j: int, rest: Seq<char>)
    requires
        0 <= i <= j <= ls.len(),
        forall|k: int, c: int|
            i <= k < j && 0 <= c < text::trimmed(ls[k]).len() ==> #[trigger] text::trimmed(ls[k])[c] != '\n'
                && text::trimmed(ls[k])[c] != '\r',
    ensures
        text::lines(parse::help_lines(ls, i, j) + rest, 0) == Seq::new(
            (j - i) as nat,
            |k: int| text::trimmed(ls[i + k]),
        ) + text::lines(rest, 0),
    decreases j - i,
{
    if i == j {
        assert(parse::help_lines(ls, i, j) + rest =~= rest);
        assert(Seq::new(0, |k: int| text::trimmed(ls[i + k])) + text::lines(rest, 0) =~= text::lines(rest, 0));
    } else {
        let l = text::trimmed(ls[j - 1]);
        reveal_strlit("\n");
        assert("\n"@ =~= seq!['\n']);
        let more = l + seq!['\n'] + rest;
        help_keeps_its_lines(ls, i, j - 1, more);
        let before = parse::help_lines(ls, i, j - 1);
        assert(parse::help_lines(ls, i, j) + rest =~= before + more);
        assert forall|c: int| 0 <= c < l.len() implies #[trigger] l[c] != '\n' by {
            assert(text::trimmed(ls[j - 1])[c] != '\n');
        }
        if l.len() > 0 {
            assert(text::trimmed(ls[j - 1])[l.len() - 1] != '\n');
        }
        readings::lines_are_split_at_their_ends(l, rest);
        let n = (j - 1 - i) as nat;
        let front = Seq::new(n, |k: int| text::trimmed(ls[i + k]));
        let all = Seq::new((j - i) as nat, |k: int| text::trimmed(ls[i + k]));
        assert(front + (seq![l] + text::lines(rest, 0)) =~= all + text::lines(rest, 0));
    }
}

} // verus!
