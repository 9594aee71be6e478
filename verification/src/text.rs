//! Text: strings taken apart into characters and put together again, decimal and
//! hexadecimal numbers, words and lines.

use vstd::prelude::*;
use vstd::slice::slice_subrange;
use vstd::string::*;

use crate::bytes;

verus! {

/// `String::push` appends one character.
pub assume_specification[ String::push ](s: &mut String, c: char)
    ensures
        final(s)@ == old(s)@.push(c),
;

/// The characters of `s`, in order.
pub fn chars(s: &str) -> (r: Vec<char>)
    ensures
        r@ == s@,
{
    let mut r: Vec<char> = Vec::new();
    for c in it: s.chars()
        invariant
            it.seq() == s@,
            r@ =~= s@.subrange(0, it.index() as int),
    {
        r.push(c);
    }
    assert(r@ =~= s@);
    r
}

/// The string made of `v`'s characters.
pub fn string(v: &[char]) -> (r: String)
    ensures
        r@ == v@,
{
    let mut r: String = String::new();
    let mut i: usize = 0;
    while i < v.len()
        invariant
            i <= v@.len(),
            r@ =~= v@.subrange(0, i as int),
        decreases v@.len() - i,
    {
        r.push(v[i]);
        i += 1;
    }
    assert(r@ =~= v@);
    r
}

/// What a list of strings holds.
pub open spec fn views(v: Seq<String>) -> Seq<Seq<char>> {
    Seq::new(v.len(), |i: int| v[i]@)
}

/// Whether two strings are the same.
pub fn same(a: &str, b: &str) -> (r: bool)
    ensures
        r == (a@ == b@),
{
    a.to_owned() == b.to_owned()
}

/// Whether `c` has Unicode's `White_Space` property.
pub open spec fn space(c: char) -> bool {
    let n = c as u32;
    9 <= n <= 13 || n == 0x20 || n == 0x85 || n == 0xa0 || n == 0x1680 || 0x2000 <= n <= 0x200a || n == 0x2028
        || n == 0x2029 || n == 0x202f || n == 0x205f || n == 0x3000
}

pub fn is_space(c: char) -> (r: bool)
    ensures
        r == space(c),
{
    let n: u32 = c as u32;
    (9 <= n && n <= 13) || n == 0x20 || n == 0x85 || n == 0xa0 || n == 0x1680 || (0x2000 <= n && n <= 0x200a)
        || n == 0x2028 || n == 0x2029 || n == 0x202f || n == 0x205f || n == 0x3000
}

/// Whether `c` is an ASCII letter or digit.
pub open spec fn ascii_alphanumeric(c: char) -> bool {
    'a' <= c <= 'z' || 'A' <= c <= 'Z' || '0' <= c <= '9'
}

/// Whether `c`, which is not an ASCII character, is a letter or a number to Unicode.
pub uninterp spec fn wide_alphanumeric(c: char) -> bool;

/// Whether `c` is a letter or a number.
pub open spec fn alphanumeric(c: char) -> bool {
    if (c as u32) < 0x80 {
        ascii_alphanumeric(c)
    } else {
        wide_alphanumeric(c)
    }
}

/// `char::is_alphanumeric`: on ASCII exactly the letters and digits, beyond it whatever
/// Unicode's tables say, which this leaves a name.
pub assume_specification[ char::is_alphanumeric ](c: char) -> (r: bool)
    ensures
        (c as u32) < 0x80 ==> r == ascii_alphanumeric(c),
        (c as u32) >= 0x80 ==> r == wide_alphanumeric(c),
;

/// Whether `c` is an ASCII letter.
pub open spec fn ascii_letter(c: char) -> bool {
    'a' <= c <= 'z' || 'A' <= c <= 'Z'
}

/// Whether `c`, which is not an ASCII character, is a letter to Unicode.
pub uninterp spec fn wide_letter(c: char) -> bool;

/// Whether `c` is a letter.
pub open spec fn letter(c: char) -> bool {
    if (c as u32) < 0x80 {
        ascii_letter(c)
    } else {
        wide_letter(c)
    }
}

/// `char::is_alphabetic`: on ASCII exactly the letters, beyond it whatever Unicode's tables say,
/// which this leaves a name.
pub assume_specification[ char::is_alphabetic ](c: char) -> (r: bool)
    ensures
        (c as u32) < 0x80 ==> r == ascii_letter(c),
        (c as u32) >= 0x80 ==> r == wide_letter(c),
;

/// A string of one character.
pub fn one(c: char) -> (r: String)
    ensures
        r@ == seq![c],
{
    let mut r: String = String::new();
    r.push(c);
    assert(r@ =~= seq![c]);
    r
}

/// What a list of character strings holds.
pub open spec fn char_views(v: Seq<Vec<char>>) -> Seq<Seq<char>> {
    Seq::new(v.len(), |i: int| v[i]@)
}

/// Whether two character strings are the same.
pub fn same_chars(a: &[char], b: &[char]) -> (r: bool)
    ensures
        r == (a@ == b@),
{
    if a.len() != b.len() {
        return false;
    }
    let mut i: usize = 0;
    while i < a.len()
        invariant
            i <= a@.len(),
            a@.len() == b@.len(),
            forall|k: int| 0 <= k < i ==> a@[k] == b@[k],
        decreases a@.len() - i,
    {
        if a[i] != b[i] {
            assert(a@[i as int] != b@[i as int]);
            return false;
        }
        i += 1;
    }
    assert(a@ =~= b@);
    true
}

/// Whether `a` comes before `b`, by the first character in which they differ, or as the
/// shorter of the two.
pub open spec fn before(a: Seq<char>, b: Seq<char>) -> bool
    decreases a.len(),
{
    if b.len() == 0 {
        false
    } else if a.len() == 0 {
        true
    } else if a[0] != b[0] {
        (a[0] as int) < b[0] as int
    } else {
        before(a.drop_first(), b.drop_first())
    }
}

/// Of two different strings exactly one comes before the other.
pub proof fn before_is_total(a: Seq<char>, b: Seq<char>)
    ensures
        a == b ==> !before(a, b),
        a != b ==> before(a, b) == !before(b, a),
    decreases a.len(),
{
    if a.len() > 0 && b.len() > 0 && a[0] == b[0] {
        before_is_total(a.drop_first(), b.drop_first());
        if a.drop_first() == b.drop_first() {
            assert(a =~= seq![a[0]] + a.drop_first());
            assert(b =~= seq![b[0]] + b.drop_first());
        }
    } else if a.len() == 0 && b.len() == 0 {
        assert(a =~= b);
    }
}

/// The order of strings is transitive.
pub proof fn before_is_transitive(a: Seq<char>, b: Seq<char>, c: Seq<char>)
    requires
        before(a, b),
        before(b, c),
    ensures
        before(a, c),
    decreases a.len(),
{
    if a.len() > 0 && a[0] == b[0] && b[0] == c[0] {
        before_is_transitive(a.drop_first(), b.drop_first(), c.drop_first());
    }
}

/// Whether `a` comes before `b`.
pub fn comes_before(a: &[char], b: &[char]) -> (r: bool)
    ensures
        r == before(a@, b@),
{
    let mut i: usize = 0;
    let ghost (x, y) = (a@, b@);
    assert(a@.subrange(0, a@.len() as int) =~= a@);
    assert(b@.subrange(0, b@.len() as int) =~= b@);
    while i < a.len() && i < b.len()
        invariant
            i <= a@.len(),
            i <= b@.len(),
            before(a@, b@) == before(a@.subrange(i as int, a@.len() as int), b@.subrange(i as int, b@.len() as int)),
        decreases a@.len() - i,
    {
        proof {
            let p = a@.subrange(i as int, a@.len() as int);
            let q = b@.subrange(i as int, b@.len() as int);
            assert(p.drop_first() =~= a@.subrange(i + 1, a@.len() as int));
            assert(q.drop_first() =~= b@.subrange(i + 1, b@.len() as int));
        }
        if a[i] != b[i] {
            return a[i] < b[i];
        }
        i += 1;
    }
    i < b.len()
}

/// The characters from `i` up to `j`, copied.
pub fn part(s: &[char], i: usize, j: usize) -> (r: Vec<char>)
    requires
        i <= j <= s@.len(),
    ensures
        r@ == s@.subrange(i as int, j as int),
{
    let mut r: Vec<char> = Vec::new();
    r.extend_from_slice(slice_subrange(s, i, j));
    assert(r@ =~= s@.subrange(i as int, j as int));
    r
}

/// The first place from `i` on that holds no white space.
pub open spec fn past_space(s: Seq<char>, i: int) -> int
    decreases s.len() - i,
{
    if 0 <= i < s.len() && space(s[i]) {
        past_space(s, i + 1)
    } else {
        i
    }
}

/// The first place from `i` on that holds white space, or the end.
pub open spec fn until_space(s: Seq<char>, i: int) -> int
    decreases s.len() - i,
{
    if 0 <= i < s.len() && !space(s[i]) {
        until_space(s, i + 1)
    } else {
        i
    }
}

/// Where the white space that ends before `i` begins.
pub open spec fn before_space(s: Seq<char>, i: int) -> int
    decreases i,
{
    if 0 < i <= s.len() && space(s[i - 1]) {
        before_space(s, i - 1)
    } else {
        i
    }
}

/// `s` without leading white space.
pub open spec fn trim_start(s: Seq<char>) -> Seq<char> {
    s.subrange(past_space(s, 0), s.len() as int)
}

/// `s` without trailing white space.
pub open spec fn trim_end(s: Seq<char>) -> Seq<char> {
    s.subrange(0, before_space(s, s.len() as int))
}

/// `s` without white space at either end.
pub open spec fn trimmed(s: Seq<char>) -> Seq<char> {
    trim_end(trim_start(s))
}

pub fn skip_space(s: &[char], i: usize) -> (r: usize)
    requires
        i <= s@.len(),
    ensures
        i <= r <= s@.len(),
        r == past_space(s@, i as int),
{
    let mut j: usize = i;
    while j < s.len() && is_space(s[j])
        invariant
            i <= j <= s@.len(),
            past_space(s@, i as int) == past_space(s@, j as int),
        decreases s@.len() - j,
    {
        j += 1;
    }
    j
}

pub fn find_space(s: &[char], i: usize) -> (r: usize)
    requires
        i <= s@.len(),
    ensures
        i <= r <= s@.len(),
        r == until_space(s@, i as int),
        r < s@.len() ==> space(s@[r as int]),
        forall|k: int| i <= k < r ==> !space(#[trigger] s@[k]),
{
    let mut j: usize = i;
    while j < s.len() && !is_space(s[j])
        invariant
            i <= j <= s@.len(),
            until_space(s@, i as int) == until_space(s@, j as int),
            forall|k: int| i <= k < j ==> !space(#[trigger] s@[k]),
        decreases s@.len() - j,
    {
        j += 1;
    }
    j
}

pub fn trim_end_chars(s: &[char]) -> (r: Vec<char>)
    ensures
        r@ == trim_end(s@),
{
    let mut j: usize = s.len();
    while j > 0 && is_space(s[j - 1])
        invariant
            j <= s@.len(),
            before_space(s@, s@.len() as int) == before_space(s@, j as int),
        decreases j,
    {
        j -= 1;
    }
    part(s, 0, j)
}

pub fn trim_start_chars(s: &[char]) -> (r: Vec<char>)
    ensures
        r@ == trim_start(s@),
{
    let i: usize = skip_space(s, 0);
    part(s, i, s.len())
}

pub fn trim(s: &[char]) -> (r: Vec<char>)
    ensures
        r@ == trimmed(s@),
{
    trim_end_chars(trim_start_chars(s).as_slice())
}

/// The words of `s` from `i` on: what white space separates.
pub open spec fn words(s: Seq<char>, i: int) -> Seq<Seq<char>>
    decreases s.len() - i,
{
    let a = past_space(s, i);
    let b = until_space(s, a);
    if 0 <= i <= a < b <= s.len() {
        seq![s.subrange(a, b)] + words(s, b)
    } else {
        seq![]
    }
}

pub fn split_words(s: &[char]) -> (r: Vec<Vec<char>>)
    ensures
        char_views(r@) == words(s@, 0),
{
    let mut r: Vec<Vec<char>> = Vec::new();
    let mut i: usize = 0;
    assert(char_views(r@) + words(s@, 0) =~= words(s@, 0));
    loop
        invariant
            i <= s@.len(),
            char_views(r@) + words(s@, i as int) == words(s@, 0),
        decreases s@.len() - i,
    {
        let a: usize = skip_space(s, i);
        let b: usize = find_space(s, a);
        if a >= b {
            assert(words(s@, i as int) =~= seq![]);
            assert(char_views(r@) + words(s@, i as int) =~= char_views(r@));
            return r;
        }
        let w = part(s, a, b);
        let ghost before = char_views(r@);
        let ghost word = w@;
        r.push(w);
        assert(char_views(r@) =~= before.push(word));
        assert(before + (seq![word] + words(s@, b as int)) =~= before.push(word) + words(s@, b as int));
        i = b;
    }
}

/// Where the line that reaches `i` ends: the next newline, or the end.
pub open spec fn line_end(s: Seq<char>, i: int) -> int
    decreases s.len() - i,
{
    if 0 <= i < s.len() && s[i] != '\n' {
        line_end(s, i + 1)
    } else {
        i
    }
}

/// A line that ended in a newline, without the carriage return before it.
pub open spec fn without_return(l: Seq<char>) -> Seq<char> {
    if l.len() > 0 && l.last() == '\r' {
        l.drop_last()
    } else {
        l
    }
}

/// The lines of `s` from `i` on.
pub open spec fn lines(s: Seq<char>, i: int) -> Seq<Seq<char>>
    decreases s.len() - i,
{
    let e = line_end(s, i);
    if i < 0 || i >= s.len() || e < i {
        seq![]
    } else if e < s.len() {
        seq![without_return(s.subrange(i, e))] + lines(s, e + 1)
    } else {
        seq![s.subrange(i, s.len() as int)]
    }
}

pub fn split_lines(s: &[char]) -> (r: Vec<Vec<char>>)
    ensures
        char_views(r@) == lines(s@, 0),
{
    let mut r: Vec<Vec<char>> = Vec::new();
    let mut i: usize = 0;
    assert(char_views(r@) + lines(s@, 0) =~= lines(s@, 0));
    while i < s.len()
        invariant
            i <= s@.len(),
            char_views(r@) + lines(s@, i as int) == lines(s@, 0),
        decreases s@.len() - i,
    {
        let mut e: usize = i;
        while e < s.len() && s[e] != '\n'
            invariant
                i <= e <= s@.len(),
                line_end(s@, i as int) == line_end(s@, e as int),
            decreases s@.len() - e,
        {
            e += 1;
        }
        let ghost before = char_views(r@);
        if e < s.len() {
            let mut l = part(s, i, e);
            if l.len() > 0 && l[l.len() - 1] == '\r' {
                l.pop();
                assert(l@ =~= s@.subrange(i as int, e as int).drop_last());
            }
            let ghost line = l@;
            assert(line == without_return(s@.subrange(i as int, e as int)));
            r.push(l);
            assert(char_views(r@) =~= before.push(line));
            assert(before + (seq![line] + lines(s@, e + 1)) =~= before.push(line) + lines(s@, e + 1));
            i = e + 1;
        } else {
            let l = part(s, i, e);
            let ghost line = l@;
            r.push(l);
            assert(char_views(r@) =~= before.push(line));
            assert(before + seq![line] =~= before.push(line));
            assert(before.push(line) + lines(s@, e as int) =~= before.push(line));
            i = e;
        }
    }
    assert(char_views(r@) + lines(s@, i as int) =~= char_views(r@));
    r
}

/// The strings of `parts` with `sep` between them.
pub open spec fn joined(parts: Seq<Seq<char>>, sep: Seq<char>) -> Seq<char>
    decreases parts.len(),
{
    if parts.len() == 0 {
        seq![]
    } else if parts.len() == 1 {
        parts[0]
    } else {
        joined(parts.drop_last(), sep) + sep + parts.last()
    }
}

pub fn join(parts: &Vec<String>, sep: &str) -> (r: String)
    ensures
        r@ == joined(views(parts@), sep@),
{
    let mut r = String::new();
    let mut i: usize = 0;
    let ghost all = views(parts@);
    assert(all.subrange(0, 0) =~= seq![]);
    while i < parts.len()
        invariant
            i <= parts@.len(),
            all == views(parts@),
            r@ == joined(all.subrange(0, i as int), sep@),
        decreases parts@.len() - i,
    {
        proof {
            let next = all.subrange(0, i + 1);
            assert(next.drop_last() =~= all.subrange(0, i as int));
            assert(next.last() == parts@[i as int]@);
            if i == 0 {
                assert(r@ + next[0] =~= next[0]);
            }
        }
        if i > 0 {
            r.append(sep);
        }
        r.append(parts[i].as_str());
        i += 1;
    }
    assert(all.subrange(0, i as int) =~= all);
    r
}

// ---- numbers ----

/// The digit character for `d`, below 16.
pub open spec fn digit_char(d: int) -> char {
    if d < 10 {
        ('0' as int + d) as char
    } else {
        ('a' as int + (d - 10)) as char
    }
}

/// What digit `c` is, or -1 if it is none.
pub open spec fn digit(c: char) -> int {
    if '0' <= c <= '9' {
        c as int - '0' as int
    } else if 'a' <= c <= 'f' {
        c as int - 'a' as int + 10
    } else if 'A' <= c <= 'F' {
        c as int - 'A' as int + 10
    } else {
        -1
    }
}

/// `n` in `radix`, without leading zeros.
pub open spec fn digits(n: nat, radix: nat) -> Seq<char>
    decreases n,
{
    if radix < 2 || n < radix {
        seq![digit_char(n as int)]
    } else {
        proof {
            assert(n / radix < n) by (nonlinear_arith)
                requires
                    n >= radix,
                    radix >= 2,
            ;
        }
        digits(n / radix, radix).push(digit_char((n % radix) as int))
    }
}

/// `i` in decimal.
pub open spec fn decimal(i: int) -> Seq<char> {
    if i < 0 {
        "-"@ + digits((-i) as nat, 10)
    } else {
        digits(i as nat, 10)
    }
}

/// The number `s` writes in `radix`, every character being a digit; the empty text is 0.
pub open spec fn numeral(s: Seq<char>, radix: int) -> Option<int>
    decreases s.len(),
{
    if s.len() == 0 {
        Some(0)
    } else {
        match numeral(s.drop_last(), radix) {
            Some(v) => if 0 <= digit(s.last()) < radix {
                Some(v * radix + digit(s.last()))
            } else {
                None
            },
            None => None,
        }
    }
}

/// The number `s` writes in `radix` after at most one sign.
pub open spec fn signed(s: Seq<char>, radix: int) -> Option<int> {
    if s.len() == 0 {
        None
    } else if s[0] == '+' || s[0] == '-' {
        if s.len() == 1 {
            None
        } else {
            match numeral(s.subrange(1, s.len() as int), radix) {
                Some(v) => Some(if s[0] == '-' {
                    -v
                } else {
                    v
                }),
                None => None,
            }
        }
    } else {
        numeral(s, radix)
    }
}

/// The number `s` writes, if it lies between `lo` and `hi`.
pub open spec fn number_within(s: Seq<char>, radix: int, lo: int, hi: int) -> Option<int> {
    match signed(s, radix) {
        Some(v) => if lo <= v <= hi {
            Some(v)
        } else {
            None
        },
        None => None,
    }
}

pub fn digit_text(d: u128) -> (r: char)
    requires
        d < 16,
    ensures
        r == digit_char(d as int),
{
    if d < 10 {
        (48u8 + d as u8) as char
    } else {
        (97u8 + (d as u8 - 10)) as char
    }
}

/// `n` in `radix`.
pub fn radix_text(n: u128, radix: u128) -> (r: String)
    requires
        2 <= radix <= 16,
    ensures
        r@ == digits(n as nat, radix as nat),
    decreases n,
{
    if n < radix {
        let c = digit_text(n);
        one(c)
    } else {
        assert(n / radix < n) by (nonlinear_arith)
            requires
                n >= radix,
                radix >= 2,
        ;
        let mut r = radix_text(n / radix, radix);
        r.push(digit_text(n % radix));
        r
    }
}

/// `i` in decimal.
pub fn int_text(i: i128) -> (r: String)
    ensures
        r@ == decimal(i as int),
{
    if i < 0 {
        let mut r = "-".to_owned();
        let size: u128 = (-(i + 1)) as u128 + 1;
        r.append(radix_text(size, 10).as_str());
        r
    } else {
        radix_text(i as u128, 10)
    }
}

/// What digit `c` is, or 255 if it is none.
fn digit_value(c: char) -> (r: u8)
    ensures
        r < 16 ==> r == digit(c),
        r >= 16 ==> r == 255 && digit(c) == -1,
{
    let n: u32 = c as u32;
    if '0' <= c && c <= '9' {
        (n - 48) as u8
    } else if 'a' <= c && c <= 'f' {
        (n - 97 + 10) as u8
    } else if 'A' <= c && c <= 'F' {
        (n - 65 + 10) as u8
    } else {
        255
    }
}

proof fn numeral_grows(s: Seq<char>, i: int, radix: int)
    requires
        0 <= i <= s.len(),
        radix >= 2,
    ensures
        numeral(s.subrange(0, i), radix) is None ==> numeral(s, radix) is None,
        numeral(s, radix) is Some ==> numeral(s, radix)->0 >= numeral(s.subrange(0, i), radix)->0 >= 0,
    decreases s.len(),
{
    if i == s.len() {
        assert(s.subrange(0, i) =~= s);
        if s.len() > 0 {
            numeral_grows(s.drop_last(), 0, radix);
            let w = numeral(s.drop_last(), radix);
            if w is Some {
                let v = w->0;
                assert(v * radix >= 0) by (nonlinear_arith)
                    requires
                        v >= 0,
                        radix >= 2,
                ;
            }
        }
    } else {
        numeral_grows(s.drop_last(), i, radix);
        assert(s.drop_last().subrange(0, i) =~= s.subrange(0, i));
        let w = numeral(s.drop_last(), radix);
        if w is Some {
            let v = w->0;
            assert(v * radix >= v) by (nonlinear_arith)
                requires
                    v >= 0,
                    radix >= 2,
            ;
        }
    }
}

/// The number `s` writes from `from` on, if that is at least one digit, all digits, and
/// fits 64 bits.
pub fn unsigned(s: &[char], from: usize, radix: u8) -> (r: Option<u64>)
    requires
        from <= s@.len(),
        2 <= radix <= 16,
    ensures
        match r {
            Some(v) => from < s@.len() && numeral(s@.subrange(from as int, s@.len() as int), radix as int) == Some(
                v as int,
            ),
            None => from == s@.len() || match numeral(s@.subrange(from as int, s@.len() as int), radix as int) {
                Some(v) => v > u64::MAX,
                None => true,
            },
        },
{
    let ghost t = s@.subrange(from as int, s@.len() as int);
    if from == s.len() {
        return None;
    }
    let mut v: u64 = 0;
    let mut i: usize = from;
    assert(t.subrange(0, 0) =~= seq![]);
    while i < s.len()
        invariant
            from <= i <= s@.len(),
            2 <= radix <= 16,
            t == s@.subrange(from as int, s@.len() as int),
            numeral(t.subrange(0, i - from), radix as int) == Some(v as int),
        decreases s@.len() - i,
    {
        let d: u8 = digit_value(s[i]);
        proof {
            let next = t.subrange(0, i + 1 - from);
            assert(next.drop_last() =~= t.subrange(0, i - from));
            assert(next.last() == s@[i as int]);
            numeral_grows(t, i + 1 - from, radix as int);
            assert(v * radix >= 0) by (nonlinear_arith)
                requires
                    v >= 0,
                    radix >= 2,
            ;
        }
        if d >= radix {
            return None;
        }
        assert(v * radix <= 0xffff_ffff_ffff_ffff * 16) by (nonlinear_arith)
            requires
                0 <= v <= 0xffff_ffff_ffff_ffff,
                2 <= radix <= 16,
        ;
        let w: u128 = v as u128 * radix as u128 + d as u128;
        if w > u64::MAX as u128 {
            return None;
        }
        v = w as u64;
        i += 1;
    }
    assert(t.subrange(0, i - from) =~= t);
    Some(v)
}

/// The signed 64-bit number `s` writes.
pub fn parse_i64(s: &[char], radix: u8) -> (r: Option<i64>)
    requires
        2 <= radix <= 16,
    ensures
        match r {
            Some(v) => number_within(s@, radix as int, i64::MIN as int, i64::MAX as int) == Some(v as int),
            None => number_within(s@, radix as int, i64::MIN as int, i64::MAX as int) is None,
        },
{
    if s.len() == 0 {
        return None;
    }
    let negative = s[0] == '-';
    let from: usize = if negative || s[0] == '+' {
        1
    } else {
        0
    };
    proof {
        let t = s@.subrange(from as int, s@.len() as int);
        numeral_grows(t, 0, radix as int);
        assert(t.subrange(0, 0) =~= seq![]);
        if from == 0 {
            assert(t =~= s@);
        }
    }
    match unsigned(s, from, radix) {
        None => None,
        Some(v) => {
            if negative {
                if v > 0x8000_0000_0000_0000 {
                    None
                } else {
                    Some((-(v as i128)) as i64)
                }
            } else if v > 0x7fff_ffff_ffff_ffff {
                None
            } else {
                Some(v as i64)
            }
        },
    }
}

/// The unsigned 64-bit number `s` writes, a `+` before it allowed.
pub fn parse_u64(s: &[char], radix: u8) -> (r: Option<u64>)
    requires
        2 <= radix <= 16,
    ensures
        match r {
            Some(v) => number_within(s@, radix as int, 0, u64::MAX as int) == Some(v as int) && s@[0] != '-',
            None => s@.len() == 0 || s@[0] == '-' || number_within(s@, radix as int, 0, u64::MAX as int) is None,
        },
{
    if s.len() == 0 || s[0] == '-' {
        return None;
    }
    let from: usize = if s[0] == '+' {
        1
    } else {
        0
    };
    proof {
        let t = s@.subrange(from as int, s@.len() as int);
        numeral_grows(t, 0, radix as int);
        assert(t.subrange(0, 0) =~= seq![]);
        if from == 0 {
            assert(t =~= s@);
        }
    }
    unsigned(s, from, radix)
}

// ---- UTF-8 ----

/// `char::from_u32`: the character of that number, where there is one. The surrogates and
/// everything above 0x10ffff are no characters.
pub assume_specification[ char::from_u32 ](i: u32) -> (r: Option<char>)
    ensures
        match r {
            Some(c) => c as u32 == i,
            None => 0xd800 <= i < 0xe000 || i > 0x10_ffff,
        },
;

/// Whether `b` continues a character.
pub open spec fn continues(b: u8) -> bool {
    0x80 <= b <= 0xbf
}

/// The character that stands at `i` in UTF-8, and how many bytes it takes.
pub open spec fn char_at(b: Seq<u8>, i: int) -> Option<(char, int)> {
    let x = b[i];
    let two = i + 1 < b.len() && continues(b[i + 1]);
    let three = two && i + 2 < b.len() && continues(b[i + 2]);
    let four = three && i + 3 < b.len() && continues(b[i + 3]);
    if x < 0x80 {
        Some((x as char, 1))
    } else if 0xc2 <= x <= 0xdf && two {
        Some((((x - 0xc0) * 64 + (b[i + 1] - 0x80)) as char, 2))
    } else if 0xe0 <= x <= 0xef && three && (x == 0xe0 ==> b[i + 1] >= 0xa0) && (x == 0xed ==> b[i + 1] < 0xa0) {
        Some((((x - 0xe0) * 4096 + (b[i + 1] - 0x80) * 64 + (b[i + 2] - 0x80)) as char, 3))
    } else if 0xf0 <= x <= 0xf4 && four && (x == 0xf0 ==> b[i + 1] >= 0x90) && (x == 0xf4 ==> b[i + 1] < 0x90) {
        Some(
            (
                ((x - 0xf0) * 262144 + (b[i + 1] - 0x80) * 4096 + (b[i + 2] - 0x80) * 64 + (b[i + 3]
                    - 0x80)) as char,
                4,
            ),
        )
    } else {
        None
    }
}

/// The character that stands at `i` in UTF-8, and how many bytes it takes.
pub fn decode_at(b: &[u8], i: usize) -> (r: Option<(char, usize)>)
    requires
        i < b@.len(),
    ensures
        match r {
            Some((c, n)) => char_at(b@, i as int) == Some((c, n as int)) && 1 <= n && i + n <= b@.len(),
            None => char_at(b@, i as int) is None,
        },
{
    let x: u8 = b[i];
    let left: usize = b.len() - i;
    if x < 0x80 {
        return Some((x as char, 1));
    }
    let two = left > 1 && 0x80 <= b[i + 1] && b[i + 1] <= 0xbf;
    let three = two && left > 2 && 0x80 <= b[i + 2] && b[i + 2] <= 0xbf;
    let four = three && left > 3 && 0x80 <= b[i + 3] && b[i + 3] <= 0xbf;
    if 0xc2 <= x && x <= 0xdf && two {
        let n: u32 = (x - 0xc0) as u32 * 64 + (b[i + 1] - 0x80) as u32;
        match char::from_u32(n) {
            Some(c) => {
                proof {
                    vstd::utf8::char_u32_cast(c, n);
                }
                assert(n as char == c);
                Some((c, 2))
            },
            None => None,
        }
    } else if 0xe0 <= x && x <= 0xef && three && (x != 0xe0 || b[i + 1] >= 0xa0) && (x != 0xed || b[i + 1] < 0xa0) {
        let n: u32 = (x - 0xe0) as u32 * 4096 + (b[i + 1] - 0x80) as u32 * 64 + (b[i + 2] - 0x80) as u32;
        match char::from_u32(n) {
            Some(c) => {
                proof {
                    vstd::utf8::char_u32_cast(c, n);
                }
                assert(n as char == c);
                Some((c, 3))
            },
            None => None,
        }
    } else if 0xf0 <= x && x <= 0xf4 && four && (x != 0xf0 || b[i + 1] >= 0x90) && (x != 0xf4 || b[i + 1] < 0x90) {
        let n: u32 = (x - 0xf0) as u32 * 262144 + (b[i + 1] - 0x80) as u32 * 4096 + (b[i + 2] - 0x80) as u32 * 64 + (
        b[i + 3] - 0x80) as u32;
        match char::from_u32(n) {
            Some(c) => {
                proof {
                    vstd::utf8::char_u32_cast(c, n);
                }
                assert(n as char == c);
                Some((c, 4))
            },
            None => None,
        }
    } else {
        None
    }
}

// ---- splitting ----

/// Where `sep` stands next, from `i` on, or the end.
pub open spec fn next_of(s: Seq<char>, sep: char, i: int) -> int
    decreases s.len() - i,
{
    if i < 0 || i >= s.len() || s[i] == sep {
        i
    } else {
        next_of(s, sep, i + 1)
    }
}

/// The next separator stands at or behind the place it is sought from, or there is none and the text ends.
pub proof fn next_of_bounds(s: Seq<char>, sep: char, i: int)
    requires
        0 <= i <= s.len(),
    ensures
        i <= next_of(s, sep, i) <= s.len(),
    decreases s.len() - i,
{
    if i < s.len() && s[i] != sep {
        next_of_bounds(s, sep, i + 1);
    }
}

/// The pieces of `s` from `i` on between one `sep` and the next; there is always one.
pub open spec fn pieces(s: Seq<char>, sep: char, i: int) -> Seq<Seq<char>>
    decreases s.len() - i,
{
    let j = next_of(s, sep, i);
    if i < 0 || i > s.len() || j >= s.len() {
        seq![s.subrange(i, s.len() as int)]
    } else {
        proof {
            next_of_bounds(s, sep, i);
        }
        seq![s.subrange(i, j)] + pieces(s, sep, j + 1)
    }
}

/// The place of the next `sep` from `i` on, or the end.
pub fn find_char(s: &[char], sep: char, i: usize) -> (r: usize)
    requires
        i <= s@.len(),
    ensures
        r == next_of(s@, sep, i as int),
        i <= r <= s@.len(),
{
    let mut j: usize = i;
    while j < s.len() && s[j] != sep
        invariant
            i <= j <= s@.len(),
            next_of(s@, sep, i as int) == next_of(s@, sep, j as int),
        decreases s@.len() - j,
    {
        j += 1;
    }
    j
}

/// The pieces of `s` between one `sep` and the next.
pub fn split_on(s: &[char], sep: char) -> (r: Vec<Vec<char>>)
    ensures
        char_views(r@) == pieces(s@, sep, 0),
{
    let mut out: Vec<Vec<char>> = Vec::new();
    let mut i: usize = 0;
    let ghost all = pieces(s@, sep, 0);
    assert(char_views(out@) + all =~= all);
    loop
        invariant_except_break
            i <= s@.len(),
            char_views(out@) + pieces(s@, sep, i as int) == all,
        ensures
            char_views(out@) == all,
        decreases s@.len() - i,
    {
        let j: usize = find_char(s, sep, i);
        let ghost before = char_views(out@);
        let piece = part(s, i, j);
        let ghost p = piece@;
        out.push(piece);
        assert(char_views(out@) =~= before.push(p));
        assert(before.push(p) =~= before + seq![p]);
        if j >= s.len() {
            break;
        }
        assert(before + (seq![p] + pieces(s@, sep, j + 1)) =~= before.push(p) + pieces(s@, sep, j + 1));
        i = j + 1;
    }
    out
}

// ---- bytes as text ----

/// `s` from `i` on, with `to` in place of every `from`, which is not empty, from left to right.
pub open spec fn replaced_from(s: Seq<char>, from: Seq<char>, to: Seq<char>, i: int) -> Seq<char>
    decreases s.len() - i,
{
    if i < 0 || i >= s.len() {
        seq![]
    } else if from.len() > 0 && bytes::stands_at(s, i, from) {
        to + replaced_from(s, from, to, i + from.len())
    } else {
        seq![s[i]] + replaced_from(s, from, to, i + 1)
    }
}

/// `s` with `to` in place of every `from`.
pub open spec fn replaced(s: Seq<char>, from: Seq<char>, to: Seq<char>) -> Seq<char> {
    replaced_from(s, from, to, 0)
}

/// `s` with `to` in place of every `from`.
pub fn replace(s: &str, from: &str, to: &str) -> (r: String)
    requires
        from@.len() > 0,
    ensures
        r@ == replaced(s@, from@, to@),
{
    let b = chars(s);
    let f = chars(from);
    let mut r = String::new();
    let mut i: usize = 0;
    assert(r@ + replaced_from(s@, from@, to@, 0) =~= replaced(s@, from@, to@));
    while i < b.len()
        invariant
            i <= b@.len(),
            b@ == s@,
            f@ == from@,
            from@.len() > 0,
            r@ + replaced_from(s@, from@, to@, i as int) == replaced(s@, from@, to@),
        decreases b@.len() - i,
    {
        let ghost before = r@;
        if f.len() <= b.len() - i && same_chars(part(b.as_slice(), i, i + f.len()).as_slice(), f.as_slice()) {
            r.append(to);
            let ghost rest = replaced_from(s@, from@, to@, i + from@.len());
            assert(before + (to@ + rest) =~= before + to@ + rest);
            i += f.len();
        } else {
            r.push(b[i]);
            let ghost rest = replaced_from(s@, from@, to@, i + 1);
            assert(before + (seq![b@[i as int]] + rest) =~= before.push(b@[i as int]) + rest);
            i += 1;
        }
    }
    assert(r@ + Seq::<char>::empty() =~= r@);
    r
}

/// `s` with one character in place of another.
pub open spec fn exchanged(s: Seq<char>, from: char, to: char) -> Seq<char> {
    Seq::new(
        s.len(),
        |i: int|
            if s[i] == from {
                to
            } else {
                s[i]
            },
    )
}

/// `s` with one character in place of another.
pub fn exchange(s: &str, from: char, to: char) -> (r: String)
    ensures
        r@ == exchanged(s@, from, to),
{
    let b = chars(s);
    let mut r = String::new();
    let mut i: usize = 0;
    while i < b.len()
        invariant
            i <= b@.len(),
            b@ == s@,
            r@ =~= exchanged(s@, from, to).subrange(0, i as int),
        decreases b@.len() - i,
    {
        r.push(
            if b[i] == from {
                to
            } else {
                b[i]
            },
        );
        i += 1;
    }
    assert(exchanged(s@, from, to).subrange(0, i as int) =~= exchanged(s@, from, to));
    r
}

/// `c` in upper case, if it is an ASCII letter.
pub open spec fn upper(c: char) -> char {
    if 'a' <= c <= 'z' {
        (c as int - 32) as char
    } else {
        c
    }
}

/// `s` with its ASCII letters in upper case.
pub open spec fn raised(s: Seq<char>) -> Seq<char> {
    Seq::new(s.len(), |i: int| upper(s[i]))
}

/// `s` with its ASCII letters in upper case.
pub fn to_upper(s: &str) -> (r: String)
    ensures
        r@ == raised(s@),
{
    let b = chars(s);
    let mut r = String::new();
    let mut i: usize = 0;
    while i < b.len()
        invariant
            i <= b@.len(),
            b@ == s@,
            r@ =~= raised(s@).subrange(0, i as int),
        decreases b@.len() - i,
    {
        let c: char = b[i];
        r.push(
            if 'a' <= c && c <= 'z' {
                ((c as u32 - 32) as u8) as char
            } else {
                c
            },
        );
        i += 1;
    }
    assert(raised(s@).subrange(0, i as int) =~= raised(s@));
    r
}

/// `s` behind enough spaces to be `width` characters wide.
pub open spec fn right_aligned(s: Seq<char>, width: nat) -> Seq<char> {
    Seq::new(
        if s.len() < width {
            (width - s.len()) as nat
        } else {
            0
        },
        |i: int| ' ',
    ) + s
}

/// `s` behind enough spaces to be `width` characters wide.
pub fn right_align(s: &str, width: usize) -> (r: String)
    ensures
        r@ == right_aligned(s@, width as nat),
{
    let b = chars(s);
    let mut r = String::new();
    let mut i: usize = b.len();
    while i < width
        invariant
            b@ == s@,
            b@.len() <= i,
            i <= width || i == b@.len(),
            r@ =~= Seq::new((i - b@.len()) as nat, |k: int| ' '),
        decreases width - i,
    {
        r.push(' ');
        i += 1;
    }
    r.append(s);
    assert(r@ =~= right_aligned(s@, width as nat));
    r
}

/// Append a copy of `s`.
pub fn push_text(v: &mut Vec<String>, s: &str)
    ensures
        views(final(v)@) == views(old(v)@).push(s@),
{
    let ghost before = views(v@);
    v.push(s.to_owned());
    assert(views(v@) =~= before.push(s@));
}

/// Append copies of every string in `more`.
pub fn push_texts(v: &mut Vec<String>, more: &Vec<String>)
    ensures
        views(final(v)@) == views(old(v)@) + views(more@),
{
    let ghost before = views(v@);
    let ghost all = views(more@);
    let mut i: usize = 0;
    assert(views(v@) =~= before + all.subrange(0, 0));
    while i < more.len()
        invariant
            i <= more@.len(),
            all == views(more@),
            views(v@) == before + all.subrange(0, i as int),
        decreases more@.len() - i,
    {
        push_text(v, more[i].as_str());
        assert(all.subrange(0, i + 1) =~= all.subrange(0, i as int).push(all[i as int]));
        assert(views(v@) =~= before + all.subrange(0, i + 1));
        i += 1;
    }
    assert(all.subrange(0, i as int) =~= all);
}

/// Three texts, one behind the other.
pub fn three(a: &str, b: &str, c: &str) -> (r: String)
    ensures
        r@ == a@ + b@ + c@,
{
    let mut r = a.to_owned();
    r.append(b);
    r.append(c);
    r
}

/// A list of strings, copied.
pub fn copy_texts(v: &Vec<String>) -> (r: Vec<String>)
    ensures
        views(r@) == views(v@),
{
    let mut r: Vec<String> = Vec::new();
    let mut i: usize = 0;
    while i < v.len()
        invariant
            i <= v@.len(),
            r@.len() == i,
            forall|k: int| 0 <= k < i ==> (#[trigger] r@[k])@ == v@[k]@,
        decreases v@.len() - i,
    {
        r.push(v[i].clone());
        i += 1;
    }
    assert(views(r@) =~= views(v@));
    r
}

/// Whether a list of strings holds `s`.
pub fn has_text(v: &Vec<String>, s: &str) -> (r: bool)
    ensures
        r == views(v@).contains(s@),
{
    let mut i: usize = 0;
    while i < v.len()
        invariant
            i <= v@.len(),
            forall|k: int| 0 <= k < i ==> #[trigger] views(v@)[k] != s@,
        decreases v@.len() - i,
    {
        assert(views(v@)[i as int] == v@[i as int]@);
        if same(v[i].as_str(), s) {
            return true;
        }
        i += 1;
    }
    false
}

/// An optional string, copied.
pub fn copy_opt(s: &Option<String>) -> (r: Option<String>)
    ensures
        opt(r) == opt(*s),
{
    match s {
        Some(x) => Some(x.clone()),
        None => None,
    }
}

/// What an optional string holds.
pub open spec fn opt(s: Option<String>) -> Option<Seq<char>> {
    match s {
        Some(x) => Some(x@),
        None => None,
    }
}

/// Where `needle` first stands in `hay`.
pub fn find_text(hay: &[char], needle: &[char]) -> (r: Option<usize>)
    ensures
        match r {
            Some(at) => bytes::find(hay@, needle@, 0) == Some(at as int) && at + needle@.len() <= hay@.len(),
            None => bytes::find(hay@, needle@, 0) == None::<int>,
        },
{
    if needle.len() > hay.len() {
        return None;
    }
    let last: usize = hay.len() - needle.len();
    let mut k: usize = 0;
    while k <= last
        invariant
            needle@.len() + last == hay@.len(),
            bytes::find(hay@, needle@, k as int) == bytes::find(hay@, needle@, 0),
        decreases last + 1 - k,
    {
        let ghost n = hay.len();
        if same_chars(part(hay, k, k + needle.len()).as_slice(), needle) {
            return Some(k);
        }
        if k == hay.len() {
            return None;
        }
        k += 1;
    }
    None
}

/// A number in hexadecimal, behind `0x`.
pub open spec fn hexadecimal(n: int) -> Seq<char> {
    "0x"@ + digits(n as nat, 16)
}

/// A number in hexadecimal, behind `0x`.
pub fn hex_text(n: u128) -> (r: String)
    ensures
        r@ == hexadecimal(n as int),
{
    let mut r: String = "0x".to_owned();
    r.append(radix_text(n, 16).as_str());
    r
}

/// What `String::from_utf8_lossy` makes of bytes that are not UTF-8.
pub uninterp spec fn lossy(b: Seq<u8>) -> Seq<char>;

/// Bytes as text.
#[verifier::opaque]
pub open spec fn decoded(b: Seq<u8>) -> Seq<char> {
    if vstd::utf8::valid_utf8(b) {
        vstd::utf8::decode_utf8(b)
    } else {
        lossy(b)
    }
}

/// The bytes of a text are decoded to it.
pub proof fn texts_are_decoded(s: Seq<char>)
    ensures
        decoded(vstd::utf8::encode_utf8(s)) == s,
{
    reveal(decoded);
    vstd::utf8::encode_utf8_valid_utf8(s);
    vstd::utf8::encode_utf8_decode_utf8(s);
}

/// ASCII bytes are decoded each to its character.
pub proof fn ascii_is_itself(b: Seq<u8>)
    requires
        ascii(b),
    ensures
        decoded(b) == as_chars(b),
{
    let s = as_chars(b);
    assert forall|i: int| 0 <= i < s.len() implies '\0' <= #[trigger] s[i] <= '\u{7f}' && s[i] as u8 == b[i] by {
        assert(b[i] < 0x80);
    }
    vstd::utf8::is_ascii_chars_encode_utf8(s);
    assert(vstd::utf8::encode_utf8(s) =~= b);
    texts_are_decoded(s);
}

/// Whether every byte is ASCII.
pub open spec fn ascii(b: Seq<u8>) -> bool {
    forall|i: int| 0 <= i < b.len() ==> #[trigger] b[i] < 0x80
}

/// ASCII bytes as characters.
pub open spec fn as_chars(b: Seq<u8>) -> Seq<char> {
    Seq::new(b.len(), |i: int| b[i] as char)
}

/// Bytes as text, by `String::from_utf8_lossy`, which reads valid UTF-8 as it stands and puts
/// replacement characters in place of what is not. What comes of bytes that are not valid is only
/// named.
#[verifier::external_body]
fn lossy_text(b: &[u8]) -> (r: String)
    ensures
        r@ == if vstd::utf8::valid_utf8(b@) {
            vstd::utf8::decode_utf8(b@)
        } else {
            lossy(b@)
        },
{
    String::from_utf8_lossy(b).into_owned()
}

/// Bytes as text.
pub fn decode(b: &[u8]) -> (r: String)
    ensures
        r@ == decoded(b@),
{
    reveal(decoded);
    lossy_text(b)
}

/// `c` in lower case, if it is an ASCII letter.
pub open spec fn lower(c: char) -> char {
    if 'A' <= c <= 'Z' {
        (c as int + 32) as char
    } else {
        c
    }
}

/// `s` with its ASCII letters in lower case.
pub open spec fn folded(s: Seq<char>) -> Seq<char> {
    Seq::new(s.len(), |i: int| lower(s[i]))
}

fn to_lower(c: char) -> (r: char)
    ensures
        r == lower(c),
{
    if 'A' <= c && c <= 'Z' {
        ((c as u32 + 32) as u8) as char
    } else {
        c
    }
}

/// Whether two texts are the same without regard to ASCII case.
pub fn same_folded(a: &str, b: &[char]) -> (r: bool)
    ensures
        r == (folded(a@) == folded(b@)),
{
    let x = chars(a);
    if x.len() != b.len() {
        assert(folded(a@).len() != folded(b@).len());
        return false;
    }
    let mut i: usize = 0;
    while i < x.len()
        invariant
            x@ == a@,
            x@.len() == b@.len(),
            i <= x@.len(),
            forall|k: int| 0 <= k < i ==> lower(#[trigger] x@[k]) == lower(b@[k]),
        decreases x@.len() - i,
    {
        if to_lower(x[i]) != to_lower(b[i]) {
            assert(folded(a@)[i as int] != folded(b@)[i as int]);
            return false;
        }
        i += 1;
    }
    assert(folded(a@) =~= folded(b@));
    true
}

} // verus!
