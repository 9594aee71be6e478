//! An in-tree rule that the compiler cannot express: `cfg` may not appear inside a function body or
//! a type's fields.
//!
//! `cfg` selects which modules and crates enter the build. The moment it appears inside a
//! function, the logic of that function is interleaved with the question of which machine it is
//! running on, and the set of configurations that anyone compiles starts shrinking toward one.
//!
//! The scan is deliberately textual. It errs toward reporting: a false positive is a comment away
//! from silence, while a false negative is what this exists to prevent.

use vstd::prelude::*;
use vstd::string::*;

use crate::bytes;
use crate::paths;
use crate::text;

verus! {

#[derive(Debug, Clone, Copy, PartialEq, Eq, Structural)]
pub enum Block {
    /// A function body: what is forbidden.
    Fn,
    /// A struct or enum body: `cfg` on a field changes a type's layout per configuration.
    Fields,
    /// `match` arms.
    Match,
    /// `impl`, `mod`, `trait`: item positions, where `cfg` is fine.
    Items,
    Other,
}

#[derive(Debug)]
pub struct Violation {
    pub file: String,
    pub line: usize,
    pub context: &'static str,
    pub text: String,
}

/// A violation over mathematical values.
pub ghost struct Finding {
    pub file: Seq<char>,
    pub line: int,
    pub context: Seq<char>,
    pub text: Seq<char>,
}

impl View for Violation {
    type V = Finding;

    open spec fn view(&self) -> Finding {
        Finding { file: self.file@, line: self.line as int, context: self.context@, text: self.text@ }
    }
}

/// What a list of violations holds.
pub open spec fn findings(v: Seq<Violation>) -> Seq<Finding> {
    v.map_values(|x: Violation| x@)
}

impl Violation {
    /// The violation as it is reported.
    pub fn to_text(&self) -> (r: String)
        ensures
            r@ == self@.file + ":"@ + text::decimal(self@.line) + ": `cfg` inside "@ + self@.context + "\n    "@
                + text::trimmed(self@.text)
                + "\n    cfg selects modules and crates, never lines inside one (docs/portability.md)"@,
    {
        let mut r = self.file.clone();
        r.append(":");
        r.append(text::int_text(self.line as i128).as_str());
        r.append(": `cfg` inside ");
        r.append(self.context);
        r.append("\n    ");
        let trimmed = text::string(text::trim(text::chars(self.text.as_str()).as_slice()).as_slice());
        r.append(trimmed.as_str());
        r.append("\n    cfg selects modules and crates, never lines inside one (docs/portability.md)");
        r
    }
}

// ---- lines without comments and literals ----

/// Whether the quote at `i` begins a lifetime and not a character literal.
pub open spec fn lifetime_at(b: Seq<char>, i: int) -> bool {
    &&& i + 1 < b.len()
    &&& text::letter(b[i + 1]) || b[i + 1] == '_'
    &&& !(i + 2 < b.len() && b[i + 2] == '\'')
}

/// What is left of a line from `i` on: comments go, and what is inside string and character
/// literals becomes spaces.
pub open spec fn stripped(b: Seq<char>, i: int, in_str: bool, in_char: bool) -> Seq<char>
    decreases
            if i < b.len() {
                b.len() - i
            } else {
                0
            },
{
    if i < 0 || i >= b.len() {
        seq![]
    } else if !in_str && !in_char && b[i] == '/' && i + 1 < b.len() && b[i + 1] == '/' {
        seq![]
    } else {
        let c = b[i];
        let s = if c == '"' && !in_char {
            !in_str
        } else {
            in_str
        };
        let q = if c == '\'' && !in_str && !lifetime_at(b, i) {
            !in_char
        } else {
            in_char
        };
        let next = if c == '\\' && (in_str || in_char) {
            i + 2
        } else {
            i + 1
        };
        let shown = if s || q {
            ' '
        } else {
            c
        };
        seq![shown] + stripped(b, next, s, q)
    }
}

/// Remove line comments and string literals so that their contents cannot be mistaken for code.
/// Only braces and `#[cfg(` need to survive intact.
pub fn strip_noise(b: &[char]) -> (r: Vec<char>)
    ensures
        r@ == stripped(b@, 0, false, false),
{
    let mut out: Vec<char> = Vec::new();
    let mut i: usize = 0;
    let mut in_str: bool = false;
    let mut in_char: bool = false;
    assert(out@ + stripped(b@, 0, false, false) =~= stripped(b@, 0, false, false));
    let ghost len = b.len();
    while i < b.len()
        invariant
            b@.len() == len,
            out@ + stripped(b@, i as int, in_str, in_char) == stripped(b@, 0, false, false),
        decreases b@.len() - i,
    {
        let c: char = b[i];
        if !in_str && !in_char && c == '/' && b.len() - i > 1 && b[i + 1] == '/' {
            assert(out@ + Seq::<char>::empty() =~= out@);
            return out;
        }
        let skip: bool = c == '\\' && (in_str || in_char);
        if c == '"' && !in_char {
            in_str = !in_str;
        } else if c == '\'' && !in_str {
            let lifetime: bool = b.len() - i > 1 && (b[i + 1].is_alphabetic() || b[i + 1] == '_') && !(b.len() - i > 2
                && b[i + 2] == '\'');
            if !lifetime {
                in_char = !in_char;
            }
        }
        let shown: char = if in_str || in_char {
            ' '
        } else {
            c
        };
        let ghost before = out@;
        out.push(shown);
        let ghost rest = stripped(
            b@,
            if skip {
                i + 2
            } else {
                i + 1
            },
            in_str,
            in_char,
        );
        assert(before + (seq![shown] + rest) =~= before.push(shown) + rest);
        if skip && b.len() - i > 1 {
            i += 2;
        } else {
            i += 1;
        }
    }
    assert(out@ + Seq::<char>::empty() =~= out@);
    out
}

// ---- blocks ----

/// Whether a character may stand in a word.
pub open spec fn word_char(c: char) -> bool {
    text::alphanumeric(c) || c == '_'
}

/// Whether `kw` stands at `i` as a word of its own.
pub open spec fn word_at(s: Seq<char>, kw: Seq<char>, i: int) -> bool {
    &&& bytes::stands_at(s, i, kw)
    &&& i == 0 || !word_char(s[i - 1])
    &&& i + kw.len() == s.len() || !word_char(s[i + kw.len()])
}

/// Whether `kw` is a word of `s`.
pub open spec fn has_word(s: Seq<char>, kw: Seq<char>) -> bool {
    exists|i: int| #[trigger] word_at(s, kw, i)
}

/// What kind of block a brace begins, from what stands before it and the blocks around it. Inside
/// a function, every nested block is still function body.
pub open spec fn block_kind(pending: Seq<char>, stack: Seq<Block>) -> Block {
    if stack.len() > 0 && stack.last() == Block::Fn {
        if has_word(pending, "match"@) {
            Block::Match
        } else {
            Block::Fn
        }
    } else if has_word(pending, "fn"@) {
        Block::Fn
    } else if has_word(pending, "struct"@) || has_word(pending, "union"@) || has_word(pending, "enum"@) {
        Block::Fields
    } else if has_word(pending, "match"@) {
        Block::Match
    } else if has_word(pending, "impl"@) || has_word(pending, "mod"@) || has_word(pending, "trait"@) {
        Block::Items
    } else {
        Block::Other
    }
}

/// The innermost enclosing block that forbids `cfg`, if any. An item position allows it, and
/// nothing further out can disallow it again.
pub open spec fn forbidden(stack: Seq<Block>) -> Option<Seq<char>>
    decreases stack.len(),
{
    if stack.len() == 0 {
        None
    } else {
        match stack.last() {
            Block::Fn => Some("a function body"@),
            Block::Fields => Some("a type's fields"@),
            Block::Match => Some("a match expression"@),
            Block::Items => None,
            Block::Other => forbidden(stack.drop_last()),
        }
    }
}

/// Where a scan stands: the blocks it is in, the text since the last brace or semicolon, and the
/// depth of the test item it is in, if it is in one. `inner` says that the attribute stands inside
/// what it is about, and not before it; `open` holds the brackets open in the item itself, and
/// `arrow` says whether its `=>` has been read.
#[verifier::ext_equal]
pub ghost struct Scan {
    pub stack: Seq<Block>,
    pub pending: Seq<char>,
    pub test: Option<int>,
    pub inner: bool,
    pub open: Seq<char>,
    pub arrow: bool,
}

/// Whether the scan is in an item that an attribute stands before, and no deeper.
pub open spec fn at_item(s: Scan) -> bool {
    s.test is Some && !s.inner && s.stack.len() <= s.test->0
}

/// Whether the next comma ends an item of the innermost block: commas part fields, and arms behind
/// their `=>`.
pub open spec fn parted(stack: Seq<Block>, arrow: bool) -> bool {
    stack.len() > 0 && (stack.last() == Block::Fields || stack.last() == Block::Match && arrow)
}

/// Whether a character ends the item that an attribute stands before: outside brackets, a semicolon
/// does, and between fields and arms a comma.
pub open spec fn ends_here(s: Scan, c: char) -> bool {
    at_item(s) && s.open.len() == 0 && (c == ';' || c == ',' && parted(s.stack, s.arrow))
}

/// The brackets open in an item after one more character.
pub open spec fn bracketed(s: Scan, c: char) -> Seq<char> {
    if at_item(s) && (c == '(' || c == '[') {
        s.open.push(c)
    } else if at_item(s) && (c == ')' || c == ']') && s.open.len() > 0 {
        s.open.drop_last()
    } else {
        s.open
    }
}

/// Whether the `=>` of an item has been read after one more character.
pub open spec fn arrowed(s: Scan, c: char) -> bool {
    s.arrow || at_item(s) && s.open.len() == 0 && c == '>' && s.pending.len() > 0 && s.pending.last() == '='
}

/// The scan after one character. An exemption ends with the item it is about: with its block, with
/// a semicolon, and between fields and arms with a comma.
pub open spec fn past_char(s: Scan, c: char) -> Scan {
    if c == '{' {
        Scan { stack: s.stack.push(block_kind(s.pending, s.stack)), pending: seq![], ..s }
    } else if c == '}' {
        let stack = if s.stack.len() == 0 {
            s.stack
        } else {
            s.stack.drop_last()
        };
        let test = match s.test {
            Some(depth) => if stack.len() <= depth {
                None
            } else {
                Some(depth)
            },
            None => None,
        };
        Scan { stack, pending: seq![], test, ..s }
    } else {
        Scan {
            stack: s.stack,
            pending: if c == ';' {
                seq![]
            } else {
                s.pending.push(c)
            },
            test: if ends_here(s, c) {
                None
            } else {
                s.test
            },
            inner: s.inner,
            open: bracketed(s, c),
            arrow: arrowed(s, c),
        }
    }
}

/// The scan after the first `n` characters of a line.
pub open spec fn past_chars(s: Scan, line: Seq<char>, n: nat) -> Scan
    decreases n,
{
    if n == 0 {
        s
    } else {
        past_char(past_chars(s, line, (n - 1) as nat), line[n - 1])
    }
}

/// Whether a line begins with the attribute that marks tests, before an item or inside one.
pub open spec fn marks_test(line: Seq<char>, inner: bool) -> bool {
    bytes::begins(
        text::trimmed(line),
        if inner {
            "#![cfg(test)]"@
        } else {
            "#[cfg(test)]"@
        },
    )
}

/// The scan once it knows whether a line begins a test item. Tests describe the configurations
/// that they exercise; `cfg` there is allowed. A test item inside another changes nothing.
pub open spec fn entered(s: Scan, line: Seq<char>) -> Scan {
    if s.test is None && (marks_test(line, false) || marks_test(line, true)) {
        Scan {
            test: Some(s.stack.len() as int),
            inner: !marks_test(line, false),
            open: seq![],
            arrow: false,
            ..s
        }
    } else {
        s
    }
}

/// Whether a line holds a `cfg`.
pub open spec fn has_cfg(line: Seq<char>) -> bool {
    bytes::find(line, "#[cfg("@, 0) is Some || bytes::find(line, "#![cfg("@, 0) is Some
}

/// Whether a `cfg` stands at `i`, other than one that marks tests.
pub open spec fn cfg_at(line: Seq<char>, i: int) -> bool {
    ||| bytes::stands_at(line, i, "#[cfg("@) && !bytes::stands_at(line, i, "#[cfg(test)]"@)
    ||| bytes::stands_at(line, i, "#![cfg("@) && !bytes::stands_at(line, i, "#![cfg(test)]"@)
}

/// Whether a struct's header begins at `i`: the word, with nothing before it but attributes, a
/// comment or what makes the struct public.
pub open spec fn heads_struct(s: Seq<char>, i: int) -> bool {
    let before = text::trim_end(s.subrange(0, i));
    &&& word_at(s, "struct"@, i)
    &&& before.len() == 0 || before.last() == ']' || before.last() == ')' || before.last() == '/' || word_at(
        before,
        "pub"@,
        before.len() - 3,
    )
}

/// How many parentheses are open after what stands from `q` up to `k`.
pub open spec fn nest(s: Seq<char>, q: int, k: int) -> int
    decreases k - q,
{
    if k <= q {
        0
    } else {
        nest(s, q, k - 1) + if s[k - 1] == '(' {
            1int
        } else if s[k - 1] == ')' {
            -1
        } else {
            0
        }
    }
}

/// Whether a parenthesis opens at `q` and is not closed before the end.
pub open spec fn unclosed(s: Seq<char>, q: int) -> bool {
    &&& 0 <= q < s.len()
    &&& s[q] == '('
    &&& forall|k: int| q < k <= s.len() ==> #[trigger] nest(s, q, k) > 0
}

/// Whether what stands behind a text is among the fields of a struct that has them in parentheses.
pub open spec fn in_fields(s: Seq<char>) -> bool {
    exists|i: int, q: int| i < q && #[trigger] heads_struct(s, i) && #[trigger] unclosed(s, q)
}

/// Where a `cfg` is not allowed, if it is not where a scan stands: outside test items, in a block
/// that forbids it, or among the fields of a struct that has them in parentheses.
pub open spec fn disallowed(s: Scan) -> Option<Seq<char>> {
    if s.test is Some {
        None
    } else {
        match forbidden(s.stack) {
            Some(context) => Some(context),
            None => if in_fields(s.pending) {
                Some("a type's fields"@)
            } else {
                None
            },
        }
    }
}

/// What the first `cfg` from `i` on that is not allowed where it stands is reported for.
pub open spec fn reported_from(s: Scan, line: Seq<char>, i: int) -> Option<Seq<char>>
    decreases line.len() - i,
{
    if i < 0 || i >= line.len() {
        None
    } else if cfg_at(line, i) && disallowed(past_chars(s, line, i as nat)) is Some {
        disallowed(past_chars(s, line, i as nat))
    } else {
        reported_from(s, line, i + 1)
    }
}

/// The scan after a line.
pub open spec fn past_line(s: Scan, raw: Seq<char>) -> Scan {
    let line = stripped(raw, 0, false, false);
    let after = past_chars(entered(s, line), line, line.len());
    Scan { pending: after.pending.push(' '), ..after }
}

/// What a line is reported for, if it is: where it begins, if that forbids a `cfg`, or else where a
/// `cfg` in it stands.
pub open spec fn reported(s: Scan, raw: Seq<char>) -> Option<Seq<char>> {
    let line = stripped(raw, 0, false, false);
    let now = entered(s, line);
    if has_cfg(line) && now.test is None && forbidden(now.stack) is Some {
        forbidden(now.stack)
    } else {
        reported_from(now, line, 0)
    }
}

/// Where a scan begins.
pub open spec fn fresh() -> Scan {
    Scan { stack: seq![], pending: seq![], test: None, inner: false, open: seq![], arrow: false }
}

/// The scan after the first `n` lines.
pub open spec fn past_lines(lines: Seq<Seq<char>>, n: nat) -> Scan
    decreases n,
{
    if n == 0 {
        fresh()
    } else {
        past_line(past_lines(lines, (n - 1) as nat), lines[n - 1])
    }
}

/// What is reported of the first `n` lines of a file.
pub open spec fn violations_of(file: Seq<char>, lines: Seq<Seq<char>>, n: nat) -> Seq<Finding>
    decreases n,
{
    if n == 0 {
        seq![]
    } else {
        let before = violations_of(file, lines, (n - 1) as nat);
        match reported(past_lines(lines, (n - 1) as nat), lines[n - 1]) {
            Some(context) => before.push(Finding { file, line: n as int, context, text: lines[n - 1] }),
            None => before,
        }
    }
}

fn is_word_char(c: char) -> (r: bool)
    ensures
        r == word_char(c),
{
    c.is_alphanumeric() || c == '_'
}

fn contains_word(s: &[char], kw: &str) -> (r: bool)
    ensures
        r == has_word(s@, kw@),
{
    let k = text::chars(kw);
    if k.len() > s.len() {
        assert forall|i: int| !#[trigger] word_at(s@, kw@, i) by {}
        return false;
    }
    let last: usize = s.len() - k.len();
    let mut i: usize = 0;
    let mut done: bool = false;
    while !done
        invariant
            k@ == kw@,
            k@.len() + last == s@.len(),
            i <= last,
            done ==> i == last,
            forall|j: int| 0 <= j < i ==> !#[trigger] word_at(s@, kw@, j),
            done ==> !word_at(s@, kw@, last as int),
        decreases last - i + if done {
            0int
        } else {
            1
        },
    {
        let ghost n = s.len();
        let here: bool = text::same_chars(text::part(s, i, i + k.len()).as_slice(), k.as_slice());
        let before: bool = i == 0 || !is_word_char(s[i - 1]);
        let after: bool = i == last || !is_word_char(s[i + k.len()]);
        if here && before && after {
            assert(word_at(s@, kw@, i as int));
            return true;
        }
        assert(!word_at(s@, kw@, i as int));
        if i == last {
            done = true;
        } else {
            i += 1;
        }
    }
    assert forall|j: int| !#[trigger] word_at(s@, kw@, j) by {
        if 0 <= j <= last {
        }
    }
    false
}

fn classify(pending: &[char], stack: &Vec<Block>) -> (r: Block)
    ensures
        r == block_kind(pending@, stack@),
{
    if stack.len() > 0 && stack[stack.len() - 1] == Block::Fn {
        return if contains_word(pending, "match") {
            Block::Match
        } else {
            Block::Fn
        };
    }
    if contains_word(pending, "fn") {
        Block::Fn
    } else if contains_word(pending, "struct") || contains_word(pending, "union") || contains_word(pending, "enum") {
        Block::Fields
    } else if contains_word(pending, "match") {
        Block::Match
    } else if contains_word(pending, "impl") || contains_word(pending, "mod") || contains_word(pending, "trait") {
        Block::Items
    } else {
        Block::Other
    }
}

fn offending(stack: &Vec<Block>) -> (r: Option<&'static str>)
    ensures
        match r {
            Some(c) => forbidden(stack@) == Some(c@),
            None => forbidden(stack@) == None::<Seq<char>>,
        },
{
    let mut n: usize = stack.len();
    assert(stack@.subrange(0, n as int) =~= stack@);
    while n > 0
        invariant
            n <= stack@.len(),
            forbidden(stack@) == forbidden(stack@.subrange(0, n as int)),
        decreases n,
    {
        let ghost part = stack@.subrange(0, n as int);
        assert(part.last() == stack@[n - 1]);
        assert(part.drop_last() =~= stack@.subrange(0, n - 1));
        match stack[n - 1] {
            Block::Fn => {
                return Some("a function body");
            },
            Block::Fields => {
                return Some("a type's fields");
            },
            Block::Match => {
                return Some("a match expression");
            },
            Block::Items => {
                return None;
            },
            Block::Other => {},
        }
        n -= 1;
    }
    None
}

/// A scan in progress.
struct Scanner {
    stack: Vec<Block>,
    pending: Vec<char>,
    test: Option<usize>,
    inner: bool,
    open: Vec<char>,
    arrow: bool,
}

impl View for Scanner {
    type V = Scan;

    closed spec fn view(&self) -> Scan {
        Scan {
            stack: self.stack@,
            pending: self.pending@,
            test: match self.test {
                Some(d) => Some(d as int),
                None => None,
            },
            inner: self.inner,
            open: self.open@,
            arrow: self.arrow,
        }
    }
}

impl Scanner {
    fn is_at_item(&self) -> (r: bool)
        ensures
            r == at_item(self@),
    {
        match self.test {
            Some(depth) => !self.inner && self.stack.len() <= depth,
            None => false,
        }
    }

    fn take(&mut self, c: char)
        ensures
            final(self)@ == past_char(old(self)@, c),
    {
        if c == '{' {
            let kind = classify(self.pending.as_slice(), &self.stack);
            self.stack.push(kind);
            self.pending = Vec::new();
        } else if c == '}' {
            if self.stack.len() > 0 {
                let _ = self.stack.pop();
            }
            if let Some(depth) = self.test {
                if self.stack.len() <= depth {
                    self.test = None;
                }
            }
            self.pending = Vec::new();
        } else {
            let item: bool = self.is_at_item();
            let free: bool = item && self.open.len() == 0;
            if free && (c == ';' || (c == ',' && is_parted(&self.stack, self.arrow))) {
                self.test = None;
            }
            if free && c == '>' && self.pending.len() > 0 && self.pending[self.pending.len() - 1] == '=' {
                self.arrow = true;
            }
            if item && (c == '(' || c == '[') {
                self.open.push(c);
            } else if item && (c == ')' || c == ']') && self.open.len() > 0 {
                let _ = self.open.pop();
            }
            if c == ';' {
                self.pending = Vec::new();
            } else {
                self.pending.push(c);
            }
        }
        assert(self@ =~= past_char(old(self)@, c));
    }

    fn enter(&mut self, line: &[char])
        ensures
            final(self)@ == entered(old(self)@, line@),
    {
        if self.test.is_none() {
            let trimmed = text::trim(line);
            let outer = begins_with(trimmed.as_slice(), "#[cfg(test)]");
            if outer || begins_with(trimmed.as_slice(), "#![cfg(test)]") {
                self.test = Some(self.stack.len());
                self.inner = !outer;
                self.open = Vec::new();
                self.arrow = false;
            }
        }
        assert(self@ =~= entered(old(self)@, line@));
    }

    fn disallows(&self) -> (r: Option<&'static str>)
        ensures
            match r {
                Some(c) => disallowed(self@) == Some(c@),
                None => disallowed(self@) == None::<Seq<char>>,
            },
    {
        if self.test.is_some() {
            return None;
        }
        match offending(&self.stack) {
            Some(context) => Some(context),
            None => if is_in_fields(self.pending.as_slice()) {
                Some("a type's fields")
            } else {
                None
            },
        }
    }
}

fn is_word_at(s: &[char], kw: &str, i: usize) -> (r: bool)
    requires
        i <= s@.len(),
    ensures
        r == word_at(s@, kw@, i as int),
{
    if !stands(s, i, kw) {
        return false;
    }
    let n: usize = text::chars(kw).len();
    (i == 0 || !is_word_char(s[i - 1])) && (i + n == s.len() || !is_word_char(s[i + n]))
}

fn begins_struct(s: &[char], i: usize) -> (r: bool)
    requires
        i <= s@.len(),
    ensures
        r == heads_struct(s@, i as int),
{
    if !is_word_at(s, "struct", i) {
        return false;
    }
    let before = text::trim_end_chars(text::part(s, 0, i).as_slice());
    let n: usize = before.len();
    n == 0 || before[n - 1] == ']' || before[n - 1] == ')' || before[n - 1] == '/' || (n >= 3 && is_word_at(
        before.as_slice(),
        "pub",
        n - 3,
    ))
}

fn is_unclosed(s: &[char], q: usize) -> (r: bool)
    requires
        q < s@.len(),
    ensures
        r == unclosed(s@, q as int),
{
    if s[q] != '(' {
        return false;
    }
    let mut depth: usize = 0;
    let mut k: usize = q;
    while k < s.len()
        invariant
            q <= k <= s@.len(),
            s@[q as int] == '(',
            depth <= k - q,
            k > q ==> depth > 0,
            depth == nest(s@, q as int, k as int),
            forall|j: int| q < j <= k ==> #[trigger] nest(s@, q as int, j) > 0,
        decreases s@.len() - k,
    {
        if s[k] == '(' {
            depth += 1;
        } else if s[k] == ')' {
            depth -= 1;
        }
        k += 1;
        if depth == 0 {
            assert(nest(s@, q as int, k as int) == 0);
            return false;
        }
    }
    true
}

fn is_in_fields(s: &[char]) -> (r: bool)
    ensures
        r == in_fields(s@),
{
    let mut i: usize = 0;
    while i < s.len()
        invariant
            i <= s@.len(),
            forall|j: int, q: int| 0 <= j < i && j < q && #[trigger] heads_struct(s@, j) ==> !#[trigger] unclosed(s@, q),
        decreases s@.len() - i,
    {
        if begins_struct(s, i) {
            let mut q: usize = i + 1;
            while q < s.len()
                invariant
                    i < q <= s@.len(),
                    heads_struct(s@, i as int),
                    forall|p: int| i < p < q ==> !#[trigger] unclosed(s@, p),
                decreases s@.len() - q,
            {
                if is_unclosed(s, q) {
                    return true;
                }
                q += 1;
            }
        }
        i += 1;
    }
    false
}

fn stands(s: &[char], i: usize, p: &str) -> (r: bool)
    requires
        i <= s@.len(),
    ensures
        r == bytes::stands_at(s@, i as int, p@),
{
    let b = text::chars(p);
    if b.len() > s.len() - i {
        return false;
    }
    text::same_chars(text::part(s, i, i + b.len()).as_slice(), b.as_slice())
}

fn is_cfg_at(line: &[char], i: usize) -> (r: bool)
    requires
        i <= line@.len(),
    ensures
        r == cfg_at(line@, i as int),
{
    (stands(line, i, "#[cfg(") && !stands(line, i, "#[cfg(test)]")) || (stands(line, i, "#![cfg(") && !stands(
        line,
        i,
        "#![cfg(test)]",
    ))
}

fn is_parted(stack: &Vec<Block>, arrow: bool) -> (r: bool)
    ensures
        r == parted(stack@, arrow),
{
    stack.len() > 0 && (stack[stack.len() - 1] == Block::Fields || (stack[stack.len() - 1] == Block::Match && arrow))
}

fn begins_with(s: &[char], p: &str) -> (r: bool)
    ensures
        r == bytes::begins(s@, p@),
{
    let b = text::chars(p);
    if b.len() > s.len() {
        return false;
    }
    text::same_chars(text::part(s, 0, b.len()).as_slice(), b.as_slice())
}

/// Check one file's source.
pub fn check_source(file: &str, src: &str) -> (r: Vec<Violation>)
    ensures
        findings(r@) == violations_of(file@, text::lines(src@, 0), text::lines(src@, 0).len()),
{
    let lines = text::split_lines(text::chars(src).as_slice());
    let ghost all = text::lines(src@, 0);
    let mut out: Vec<Violation> = Vec::new();
    let mut scan = Scanner {
        stack: Vec::new(),
        pending: Vec::new(),
        test: None,
        inner: false,
        open: Vec::new(),
        arrow: false,
    };
    let mut i: usize = 0;
    assert(scan@ =~= fresh());
    assert(findings(out@) =~= seq![]);
    while i < lines.len()
        invariant
            i <= lines@.len(),
            text::char_views(lines@) == all,
            scan@ == past_lines(all, i as nat),
            findings(out@) == violations_of(file@, all, i as nat),
        decreases lines@.len() - i,
    {
        let raw = &lines[i];
        assert(text::char_views(lines@)[i as int] == raw@);
        let line = strip_noise(raw.as_slice());
        scan.enter(line.as_slice());
        let ghost now = scan@;
        let is_cfg: bool = text::find_text(line.as_slice(), text::chars("#[cfg(").as_slice()).is_some()
            || text::find_text(line.as_slice(), text::chars("#![cfg(").as_slice()).is_some();
        let mut found: Option<&'static str> = if is_cfg && scan.test.is_none() {
            offending(&scan.stack)
        } else {
            None
        };
        let mut k: usize = 0;
        while k < line.len()
            invariant
                k <= line@.len(),
                scan@ == past_chars(now, line@, k as nat),
                match found {
                    Some(c) => reported(past_lines(all, i as nat), raw@) == Some(c@),
                    None => reported(past_lines(all, i as nat), raw@) == reported_from(now, line@, k as int),
                },
            decreases line@.len() - k,
        {
            if found.is_none() && is_cfg_at(line.as_slice(), k) {
                found = scan.disallows();
            }
            scan.take(line[k]);
            k += 1;
        }
        if let Some(context) = found {
            let v = Violation { file: file.to_owned(), line: i + 1, context, text: text::string(raw.as_slice()) };
            let ghost before = findings(out@);
            let ghost added = v@;
            out.push(v);
            assert(findings(out@) =~= before.push(added));
        }
        let ghost after = scan@;
        scan.pending.push(' ');
        assert(scan@ =~= (Scan { pending: after.pending.push(' '), ..after }));
        i += 1;
    }
    out
}

/// A source file: where it is, and its text.
pub struct Script {
    pub path: String,
    pub text: String,
}

/// A source file over mathematical strings.
pub ghost struct Doc {
    pub path: Seq<char>,
    pub text: Seq<char>,
}

impl View for Script {
    type V = Doc;

    open spec fn view(&self) -> Doc {
        Doc { path: self.path@, text: self.text@ }
    }
}

/// What a list of source files holds.
pub open spec fn docs(v: Seq<Script>) -> Seq<Doc> {
    v.map_values(|s: Script| s@)
}

/// Where a path goes among files sorted by path.
pub open spec fn slot(files: Seq<Doc>, path: Seq<char>, i: int) -> int
    decreases files.len() - i,
{
    if i < 0 || i >= files.len() || paths::path_before(path, files[i].path) {
        i
    } else {
        slot(files, path, i + 1)
    }
}

/// The first `n` files, sorted by path.
pub open spec fn by_path(files: Seq<Doc>, n: nat) -> Seq<Doc>
    decreases n,
{
    if n == 0 {
        seq![]
    } else {
        let before = by_path(files, (n - 1) as nat);
        before.insert(slot(before, files[n - 1].path, 0), files[n - 1])
    }
}

/// What is reported of one file.
pub open spec fn file_findings(d: Doc) -> Seq<Finding> {
    violations_of(d.path, text::lines(d.text, 0), text::lines(d.text, 0).len())
}

/// What is reported of the first `n` files, one after the other.
pub open spec fn tree_findings(files: Seq<Doc>, n: nat) -> Seq<Finding>
    decreases n,
{
    if n == 0 {
        seq![]
    } else {
        tree_findings(files, (n - 1) as nat) + file_findings(files[n - 1])
    }
}

fn order_of(files: &Vec<Script>) -> (r: Vec<usize>)
    ensures
        r@.len() == files@.len(),
        forall|k: int| 0 <= k < r@.len() ==> #[trigger] r@[k] < files@.len(),
        r@.map_values(|i: usize| docs(files@)[i as int]) == by_path(docs(files@), files@.len()),
{
    let ghost all = docs(files@);
    let mut out: Vec<usize> = Vec::new();
    let mut i: usize = 0;
    assert(out@.map_values(|i: usize| all[i as int]) =~= by_path(all, 0));
    while i < files.len()
        invariant
            i <= files@.len(),
            all == docs(files@),
            out@.len() == i,
            forall|k: int| 0 <= k < out@.len() ==> #[trigger] out@[k] < files@.len(),
            out@.map_values(|i: usize| all[i as int]) == by_path(all, i as nat),
        decreases files@.len() - i,
    {
        let path = text::chars(files[i].path.as_str());
        let ghost so_far = by_path(all, i as nat);
        let mut at: usize = 0;
        while at < out.len() && !paths::path_comes_before(
            path.as_slice(),
            text::chars(files[out[at]].path.as_str()).as_slice(),
        )
            invariant
                at <= out@.len(),
                all == docs(files@),
                so_far == out@.map_values(|i: usize| all[i as int]),
                forall|k: int| 0 <= k < out@.len() ==> #[trigger] out@[k] < files@.len(),
                slot(so_far, path@, 0) == slot(so_far, path@, at as int),
            decreases out@.len() - at,
        {
            assert(so_far[at as int].path == files@[out@[at as int] as int].path@);
            at += 1;
        }
        assert(at < out@.len() ==> so_far[at as int].path == files@[out@[at as int] as int].path@);
        out.insert(at, i);
        assert(out@.map_values(|i: usize| all[i as int]) =~= so_far.insert(at as int, all[i as int]));
        i += 1;
    }
    out
}

/// Check every file of a tree, in the order of their paths.
pub fn check_tree(files: &Vec<Script>) -> (r: Vec<Violation>)
    ensures
        findings(r@) == tree_findings(by_path(docs(files@), files@.len()), files@.len()),
{
    let order = order_of(files);
    let ghost sorted = by_path(docs(files@), files@.len());
    let mut out: Vec<Violation> = Vec::new();
    let mut i: usize = 0;
    assert(findings(out@) =~= tree_findings(sorted, 0));
    while i < order.len()
        invariant
            i <= order@.len() == files@.len(),
            forall|k: int| 0 <= k < order@.len() ==> #[trigger] order@[k] < files@.len(),
            sorted == order@.map_values(|i: usize| docs(files@)[i as int]),
            findings(out@) == tree_findings(sorted, i as nat),
        decreases order@.len() - i,
    {
        let f = &files[order[i]];
        assert(sorted[i as int] == f@);
        let mut found = check_source(f.path.as_str(), f.text.as_str());
        let ghost before = findings(out@);
        let ghost more = findings(found@);
        out.append(&mut found);
        assert(findings(out@) =~= before + more);
        i += 1;
    }
    out
}

/// Whether a directory is not scanned, by its name: kbuild is a host tool, not kernel code, and
/// `build` holds outputs.
pub fn is_skipped(name: &str) -> (r: bool)
    ensures
        r == (name@ == "build"@ || name@ == "target"@ || name@ == ".git"@ || name@ == "docs"@ || name@ == "kbuild"@
            || name@ == ".github"@ || (name@.len() > 0 && name@[0] == '.')),
{
    let n = text::chars(name);
    text::same(name, "build") || text::same(name, "target") || text::same(name, ".git") || text::same(name, "docs")
        || text::same(name, "kbuild") || text::same(name, ".github") || (n.len() > 0 && n[0] == '.')
}

/// Whether a line begins inside a block and holds a `cfg`, or holds one that stands inside a block
/// or among a struct's fields.
pub open spec fn nests_cfg(s: Scan, line: Seq<char>) -> bool {
    ||| has_cfg(line) && s.stack.len() > 0
    ||| exists|p: int|
        0 <= p < line.len() && #[trigger] cfg_at(line, p) && (past_chars(s, line, p as nat).stack.len() > 0 || in_fields(
            past_chars(s, line, p as nat).pending,
        ))
}

proof fn reported_cfgs_are_nested(s: Scan, line: Seq<char>, i: int)
    requires
        0 <= i,
        reported_from(s, line, i) is Some,
    ensures
        nests_cfg(s, line),
    decreases line.len() - i,
{
    if !(cfg_at(line, i) && disallowed(past_chars(s, line, i as nat)) is Some) {
        reported_cfgs_are_nested(s, line, i + 1);
    }
}

proof fn reports_are_lines(file: Seq<char>, lines: Seq<Seq<char>>, n: nat, i: int)
    requires
        n <= lines.len(),
        0 <= i < violations_of(file, lines, n).len(),
    ensures
        ({
            let v = violations_of(file, lines, n)[i];
            let line = stripped(v.text, 0, false, false);
            1 <= v.line <= n && v.text == lines[v.line - 1] && nests_cfg(
                entered(past_lines(lines, (v.line - 1) as nat), line),
                line,
            )
        }),
    decreases n,
{
    if n > 0 {
        let before = violations_of(file, lines, (n - 1) as nat);
        if i < before.len() {
            reports_are_lines(file, lines, (n - 1) as nat, i);
        } else {
            let line = stripped(lines[n - 1], 0, false, false);
            let now = entered(past_lines(lines, (n - 1) as nat), line);
            if !(has_cfg(line) && now.test is None && forbidden(now.stack) is Some) {
                reported_cfgs_are_nested(now, line, 0);
            }
        }
    }
}

/// What is reported is a line that holds a `cfg` outside comments and literals, inside some block or
/// among a struct's fields: nothing at the top level of a file is ever reported.
pub proof fn only_nested_cfgs_are_reported(file: Seq<char>, lines: Seq<Seq<char>>, i: int)
    requires
        0 <= i < violations_of(file, lines, lines.len()).len(),
    ensures
        ({
            let v = violations_of(file, lines, lines.len())[i];
            let line = stripped(v.text, 0, false, false);
            &&& v.file == file
            &&& 1 <= v.line <= lines.len()
            &&& v.text == lines[v.line - 1]
            &&& nests_cfg(entered(past_lines(lines, (v.line - 1) as nat), line), line)
        }),
{
    reports_are_lines(file, lines, lines.len(), i);
    files_are_named(file, lines, lines.len(), i);
}

proof fn files_are_named(file: Seq<char>, lines: Seq<Seq<char>>, n: nat, i: int)
    requires
        0 <= i < violations_of(file, lines, n).len(),
    ensures
        violations_of(file, lines, n)[i].file == file,
    decreases n,
{
    if n > 0 && i < violations_of(file, lines, (n - 1) as nat).len() {
        files_are_named(file, lines, (n - 1) as nat, i);
    }
}

proof fn disallowed_cfgs_are_found(s: Scan, line: Seq<char>, i: int, p: int)
    requires
        0 <= i <= p < line.len(),
        cfg_at(line, p),
        disallowed(past_chars(s, line, p as nat)) is Some,
    ensures
        reported_from(s, line, i) is Some,
    decreases p - i,
{
    if i < p {
        disallowed_cfgs_are_found(s, line, i + 1, p);
    }
}

/// A `cfg` in a function body, in a match or among a type's fields, outside every test item, is
/// reported, wherever in its line it stands.
pub proof fn cfgs_outside_tests_are_reported(file: Seq<char>, lines: Seq<Seq<char>>, i: int, p: int)
    requires
        0 <= i < lines.len(),
        0 <= p < stripped(lines[i], 0, false, false).len(),
        cfg_at(stripped(lines[i], 0, false, false), p),
        ({
            let line = stripped(lines[i], 0, false, false);
            disallowed(past_chars(entered(past_lines(lines, i as nat), line), line, p as nat)) is Some
        }),
    ensures
        reported(past_lines(lines, i as nat), lines[i]) is Some,
        violations_of(file, lines, lines.len()).contains(
            Finding {
                file,
                line: i + 1,
                context: reported(past_lines(lines, i as nat), lines[i])->0,
                text: lines[i],
            },
        ),
{
    let line = stripped(lines[i], 0, false, false);
    let s = past_lines(lines, i as nat);
    disallowed_cfgs_are_found(entered(s, line), line, 0, p);
    let context = reported(s, lines[i])->0;
    let f = Finding { file, line: i + 1, context, text: lines[i] };
    let here = violations_of(file, lines, (i + 1) as nat);
    assert(here.last() == f);
    reports_stay(file, lines, (i + 1) as nat, lines.len());
    let all = violations_of(file, lines, lines.len());
    assert(all[here.len() - 1] == f);
}

proof fn reports_stay(file: Seq<char>, lines: Seq<Seq<char>>, n: nat, m: nat)
    requires
        n <= m <= lines.len(),
    ensures
        violations_of(file, lines, n).len() <= violations_of(file, lines, m).len(),
        forall|k: int|
            0 <= k < violations_of(file, lines, n).len() ==> violations_of(file, lines, m)[k] == violations_of(
                file,
                lines,
                n,
            )[k],
    decreases m,
{
    if n < m {
        reports_stay(file, lines, n, (m - 1) as nat);
    }
}

/// Whether one of the first `n` characters of a line ends an item at depth `d`, from where a scan
/// stands: it closes the item's block, or it is the semicolon behind an item without one, outside
/// brackets.
pub open spec fn ends_item(s: Scan, line: Seq<char>, n: nat, d: int, inner: bool) -> bool {
    exists|k: int|
        0 <= k < n && (line[k] == '}' || (!inner && line[k] == ';' && past_chars(s, line, k as nat).open.len() == 0))
            && (#[trigger] past_chars(s, line, (k + 1) as nat)).stack.len() <= d
}

/// Whether what begins at line `j` is not over before line `i`.
pub open spec fn lasts(lines: Seq<Seq<char>>, j: int, i: int, d: int, inner: bool) -> bool {
    forall|l: int|
        j <= l < i ==> !ends_item(
            entered(past_lines(lines, l as nat), stripped(#[trigger] lines[l], 0, false, false)),
            stripped(lines[l], 0, false, false),
            stripped(lines[l], 0, false, false).len(),
            d,
            inner,
        )
}

proof fn exemption_lasts_in_line(s: Scan, line: Seq<char>, n: nat)
    requires
        n <= line.len(),
        past_chars(s, line, n).test is Some,
    ensures
        s.test == past_chars(s, line, n).test,
        s.inner == past_chars(s, line, n).inner,
        !ends_item(s, line, n, s.test->0, s.inner),
    decreases n,
{
    if n > 0 {
        exemption_lasts_in_line(s, line, (n - 1) as nat);
        let before = past_chars(s, line, (n - 1) as nat);
        assert(before.test == s.test);
        if ends_item(s, line, n, s.test->0, s.inner) {
            let k = choose|k: int|
                0 <= k < n && (line[k] == '}' || (!s.inner && line[k] == ';' && past_chars(s, line, k as nat).open.len()
                    == 0)) && (#[trigger] past_chars(s, line, (k + 1) as nat)).stack.len() <= s.test->0;
            if k < n - 1 {
                assert(ends_item(s, line, (n - 1) as nat, s.test->0, s.inner));
            }
        }
    }
}

/// A line is exempt only inside a test item: some line before it begins with the attribute, at the
/// depth that the scan remembers, and nothing since has ended the item that the attribute is about.
pub proof fn exemptions_end_with_their_item(lines: Seq<Seq<char>>, i: int)
    requires
        0 <= i <= lines.len(),
        past_lines(lines, i as nat).test is Some,
    ensures
        ({
            let s = past_lines(lines, i as nat);
            exists|j: int|
                0 <= j < i && marks_test(stripped(#[trigger] lines[j], 0, false, false), s.inner) && past_lines(
                    lines,
                    j as nat,
                ).stack.len() == s.test->0 && lasts(lines, j, i, s.test->0, s.inner)
        }),
    decreases i,
{
    let s = past_lines(lines, i as nat);
    if i > 0 {
        let before = past_lines(lines, (i - 1) as nat);
        let line = stripped(lines[i - 1], 0, false, false);
        let now = entered(before, line);
        exemption_lasts_in_line(now, line, line.len());
        let (d, inner) = (s.test->0, s.inner);
        if before.test is None {
            assert(lasts(lines, i - 1, i, d, inner));
        } else {
            exemptions_end_with_their_item(lines, i - 1);
            let j = choose|j: int|
                0 <= j < i - 1 && marks_test(stripped(#[trigger] lines[j], 0, false, false), before.inner)
                    && past_lines(lines, j as nat).stack.len() == before.test->0 && lasts(
                    lines,
                    j,
                    i - 1,
                    before.test->0,
                    before.inner,
                );
            assert(lasts(lines, j, i, d, inner));
        }
    }
}

} // verus!
