//! Keys of the content-addressed build cache.
//!
//! A key is a hash of everything that can affect an output: the toolchain's identity, the full
//! argument vector, every source file in the unit, and the keys of all dependencies.

use vstd::prelude::*;
use vstd::string::*;

use crate::bytes;
use crate::digest;
use crate::digest::Sha256;
use crate::paths;
use crate::text;

verus! {

/// What every key begins with: `kintane-cache-v1` and a zero.
pub const PREFIX: [u8; 17] = [107u8, 105, 110, 116, 97, 110, 101, 45, 99, 97, 99, 104, 101, 45, 118, 49, 0];

/// The bytes of a text, ended by a zero.
pub open spec fn ended(s: Seq<char>) -> Seq<u8> {
    vstd::utf8::encode_utf8(s).push(0u8)
}

/// What a labelled value adds to a key.
pub open spec fn field_bytes(label: Seq<char>, value: Seq<char>) -> Seq<u8> {
    vstd::utf8::encode_utf8(label) + seq![61u8] + ended(value)
}

/// What the first `n` arguments add to a key.
pub open spec fn args_bytes(args: Seq<Seq<char>>, n: nat) -> Seq<u8>
    decreases n,
{
    if n == 0 {
        seq![]
    } else {
        args_bytes(args, (n - 1) as nat) + ended(args[n - 1])
    }
}

/// What a file's contents add to a key: their length, and they.
pub open spec fn file_bytes(data: Seq<u8>) -> Seq<u8> {
    bytes::le64_bytes(data.len() as int) + data
}

/// A source file: its path within the tree, and its contents.
pub struct Source {
    pub path: String,
    pub data: Vec<u8>,
}

/// A source file over mathematical values.
pub ghost struct Leaf {
    pub path: Seq<char>,
    pub data: Seq<u8>,
}

impl View for Source {
    type V = Leaf;

    open spec fn view(&self) -> Leaf {
        Leaf { path: self.path@, data: self.data@ }
    }
}

/// What a list of source files holds.
pub open spec fn leaves(v: Seq<Source>) -> Seq<Leaf> {
    v.map_values(|s: Source| s@)
}

/// Where a path goes among files sorted by path.
pub open spec fn slot(files: Seq<Leaf>, path: Seq<char>, i: int) -> int
    decreases files.len() - i,
{
    if i < 0 || i >= files.len() || paths::path_before(path, files[i].path) {
        i
    } else {
        slot(files, path, i + 1)
    }
}

/// The first `n` files, sorted by path.
pub open spec fn by_path(files: Seq<Leaf>, n: nat) -> Seq<Leaf>
    decreases n,
{
    if n == 0 {
        seq![]
    } else {
        let before = by_path(files, (n - 1) as nat);
        before.insert(slot(before, files[n - 1].path, 0), files[n - 1])
    }
}

/// What the first `n` files of a tree add to a key.
pub open spec fn tree_bytes(files: Seq<Leaf>, n: nat) -> Seq<u8>
    decreases n,
{
    if n == 0 {
        seq![]
    } else {
        tree_bytes(files, (n - 1) as nat) + ended(files[n - 1].path) + file_bytes(files[n - 1].data)
    }
}

fn order_of(files: &Vec<Source>) -> (r: Vec<usize>)
    ensures
        r@.len() == files@.len(),
        forall|k: int| 0 <= k < r@.len() ==> #[trigger] r@[k] < files@.len(),
        r@.map_values(|i: usize| leaves(files@)[i as int]) == by_path(leaves(files@), files@.len()),
{
    let ghost all = leaves(files@);
    let mut out: Vec<usize> = Vec::new();
    let mut i: usize = 0;
    assert(out@.map_values(|i: usize| all[i as int]) =~= by_path(all, 0));
    while i < files.len()
        invariant
            i <= files@.len(),
            all == leaves(files@),
            out@.len() == i,
            forall|k: int| 0 <= k < out@.len() ==> #[trigger] out@[k] < files@.len(),
            out@.map_values(|i: usize| all[i as int]) == by_path(all, i as nat),
        decreases files@.len() - i,
    {
        let path = text::chars(files[i].path.as_str());
        let ghost before = by_path(all, i as nat);
        let at: usize = find_slot(files, &out, path.as_slice());
        out.insert(at, i);
        assert(out@.map_values(|i: usize| all[i as int]) =~= before.insert(at as int, all[i as int]));
        i += 1;
    }
    out
}

fn find_slot(files: &Vec<Source>, sorted: &Vec<usize>, path: &[char]) -> (r: usize)
    requires
        forall|k: int| 0 <= k < sorted@.len() ==> #[trigger] sorted@[k] < files@.len(),
    ensures
        r == slot(sorted@.map_values(|i: usize| leaves(files@)[i as int]), path@, 0),
        r <= sorted@.len(),
{
    let ghost all = leaves(files@);
    let ghost so_far = sorted@.map_values(|i: usize| all[i as int]);
    let mut at: usize = 0;
    while at < sorted.len()
        invariant
            at <= sorted@.len(),
            all == leaves(files@),
            so_far == sorted@.map_values(|i: usize| all[i as int]),
            forall|k: int| 0 <= k < sorted@.len() ==> #[trigger] sorted@[k] < files@.len(),
            slot(so_far, path@, 0) == slot(so_far, path@, at as int),
        decreases sorted@.len() - at,
    {
        let other = &files[sorted[at]];
        assert(so_far[at as int].path == other.path@);
        if paths::path_comes_before(path, text::chars(other.path.as_str()).as_slice()) {
            return at;
        }
        at += 1;
    }
    at
}

/// Accumulates everything that affects a unit's output.
pub struct KeyBuilder {
    h: Sha256,
}

impl View for KeyBuilder {
    type V = Seq<u8>;

    closed spec fn view(&self) -> Seq<u8> {
        self.h@
    }
}

impl KeyBuilder {
    pub fn new(toolchain_identity: &str) -> (r: KeyBuilder)
        ensures
            r@ == PREFIX@ + ended(toolchain_identity@),
    {
        let mut h = Sha256::new();
        h.update(PREFIX.as_slice());
        h.update(toolchain_identity.as_bytes());
        h.update([0u8].as_slice());
        assert(h@ =~= PREFIX@ + ended(toolchain_identity@));
        KeyBuilder { h }
    }

    pub fn field(&mut self, label: &str, value: &str)
        ensures
            final(self)@ == old(self)@ + field_bytes(label@, value@),
    {
        self.h.update(label.as_bytes());
        self.h.update([61u8].as_slice());
        self.h.update(value.as_bytes());
        self.h.update([0u8].as_slice());
        assert(self@ =~= old(self)@ + field_bytes(label@, value@));
    }

    pub fn args(&mut self, args: &[String])
        ensures
            final(self)@ == old(self)@ + args_bytes(text::views(args@), args@.len()),
    {
        let ghost all = text::views(args@);
        let mut i: usize = 0;
        assert(self@ =~= old(self)@ + args_bytes(all, 0));
        while i < args.len()
            invariant
                i <= args@.len(),
                all == text::views(args@),
                self@ == old(self)@ + args_bytes(all, i as nat),
            decreases args@.len() - i,
        {
            self.h.update(args[i].as_str().as_bytes());
            self.h.update([0u8].as_slice());
            assert(self@ =~= old(self)@ + (args_bytes(all, i as nat) + ended(all[i as int])));
            i += 1;
        }
    }

    /// Every file of a tree, in the order of their paths, contents included.
    pub fn source_tree(&mut self, files: &Vec<Source>)
        ensures
            final(self)@ == old(self)@ + tree_bytes(by_path(leaves(files@), files@.len()), files@.len()),
    {
        let ghost all = leaves(files@);
        let order = order_of(files);
        let ghost sorted = by_path(all, files@.len());
        let mut i: usize = 0;
        assert(self@ =~= old(self)@ + tree_bytes(sorted, 0));
        while i < order.len()
            invariant
                i <= order@.len(),
                all == leaves(files@),
                order@.len() == files@.len(),
                forall|k: int| 0 <= k < order@.len() ==> #[trigger] order@[k] < files@.len(),
                sorted == order@.map_values(|i: usize| all[i as int]),
                self@ == old(self)@ + tree_bytes(sorted, i as nat),
            decreases order@.len() - i,
        {
            let f = &files[order[i]];
            assert(sorted[i as int] == f@);
            let ghost before = tree_bytes(sorted, i as nat);
            self.h.update(f.path.as_str().as_bytes());
            self.h.update([0u8].as_slice());
            self.file(f.data.as_slice());
            assert(self@ =~= old(self)@ + (before + ended(f.path@) + file_bytes(f.data@)));
            i += 1;
        }
    }

    /// A file's contents.
    pub fn file(&mut self, data: &[u8])
        ensures
            final(self)@ == old(self)@ + file_bytes(data@),
    {
        let mut size: Vec<u8> = Vec::new();
        bytes::push_le64(&mut size, data.len() as u64);
        self.h.update(size.as_slice());
        self.h.update(data);
        assert(self@ =~= old(self)@ + file_bytes(data@));
    }

    pub fn finish(self) -> (r: String)
        ensures
            r@ == digest::hex_of(digest::sha256(self@), 32),
    {
        digest::hex(self.h.finish().as_slice())
    }
}

/// The text that the first two bytes of a key are, if no character straddles their end: two ASCII
/// characters, or one that takes two bytes.
pub open spec fn first_bytes(key: Seq<char>) -> Option<Seq<char>> {
    if key.len() >= 1 && 0x80 <= key[0] as u32 && (key[0] as u32) < 0x800 {
        Some(key.subrange(0, 1))
    } else if key.len() >= 2 && (key[0] as u32) < 0x80 && (key[1] as u32) < 0x80 {
        Some(key.subrange(0, 2))
    } else {
        None
    }
}

/// Where a cached artifact stands below the cache's directory: by the first two bytes of its key,
/// the key, and its file name.
pub fn slot_path(key: &str, filename: &str) -> (r: String)
    requires
        first_bytes(key@) is Some,
    ensures
        r@ == first_bytes(key@)->0 + "/"@ + key@ + "/"@ + filename@,
{
    let k = text::chars(key);
    let n: usize = if k[0] as u32 >= 0x80 {
        1
    } else {
        2
    };
    let mut r = text::string(text::part(k.as_slice(), 0, n).as_slice());
    r.append("/");
    r.append(key);
    r.append("/");
    r.append(filename);
    r
}

/// Whether files stand in the order of their paths, which all differ.
pub open spec fn sorted(files: Seq<Leaf>) -> bool {
    forall|i: int, j: int|
        0 <= i < j < files.len() ==> paths::path_before((#[trigger] files[i]).path, (#[trigger] files[j]).path)
}

/// Whether no two files have the same path.
pub open spec fn paths_differ(files: Seq<Leaf>) -> bool {
    forall|i: int, j: int| 0 <= i < j < files.len() ==> (#[trigger] files[i]).path != (#[trigger] files[j]).path
}

proof fn slot_sits_between(files: Seq<Leaf>, path: Seq<char>, i: int)
    requires
        0 <= i <= files.len(),
        sorted(files),
        forall|k: int| 0 <= k < files.len() ==> (#[trigger] files[k]).path != path,
        forall|k: int| 0 <= k < i ==> paths::path_before((#[trigger] files[k]).path, path),
    ensures
        i <= slot(files, path, i) <= files.len(),
        forall|k: int| 0 <= k < slot(files, path, i) ==> paths::path_before((#[trigger] files[k]).path, path),
        forall|k: int| slot(files, path, i) <= k < files.len() ==> paths::path_before(path, (#[trigger] files[k]).path),
    decreases files.len() - i,
{
    if i < files.len() {
        paths::path_order_is_total(path, files[i].path);
        if !paths::path_before(path, files[i].path) {
            slot_sits_between(files, path, i + 1);
        } else {
            assert forall|k: int| i <= k < files.len() implies paths::path_before(path, (#[trigger] files[k]).path) by {
                if k > i {
                    paths::path_order_is_transitive(path, files[i].path, files[k].path);
                }
            }
        }
    }
}

pub(crate) proof fn sorting_sorts(files: Seq<Leaf>, n: nat)
    requires
        n <= files.len(),
        paths_differ(files),
    ensures
        by_path(files, n).len() == n,
        sorted(by_path(files, n)),
        forall|l: Leaf| by_path(files, n).contains(l) <==> files.take(n as int).contains(l),
    decreases n,
{
    if n > 0 {
        sorting_sorts(files, (n - 1) as nat);
        let before = by_path(files, (n - 1) as nat);
        let (head, f) = (files.take(n - 1), files[n - 1]);
        assert forall|k: int| 0 <= k < before.len() implies (#[trigger] before[k]).path != f.path by {
            assert(before.contains(before[k]));
            let i = choose|i: int| 0 <= i < head.len() && head[i] == before[k];
            assert(files[i].path != files[n - 1].path);
        }
        slot_sits_between(before, f.path, 0);
        let at = slot(before, f.path, 0);
        let after = before.insert(at, f);
        assert forall|i: int, j: int| 0 <= i < j < after.len() implies paths::path_before(
            (#[trigger] after[i]).path,
            (#[trigger] after[j]).path,
        ) by {
            if i < at && j > at {
                assert(after[j] == before[j - 1]);
            } else if i > at {
                assert(after[i] == before[i - 1] && after[j] == before[j - 1]);
            } else if i == at {
                assert(after[j] == before[j - 1]);
            }
        }
        assert forall|l: Leaf| after.contains(l) <==> files.take(n as int).contains(l) by {
            let now = files.take(n as int);
            if after.contains(l) {
                let k = choose|k: int| 0 <= k < after.len() && after[k] == l;
                if k == at {
                    assert(now[n - 1] == l);
                } else {
                    let b = if k < at {
                        k
                    } else {
                        k - 1
                    };
                    assert(before[b] == l);
                    assert(before.contains(l));
                    assert(head.contains(l));
                    let i = choose|i: int| 0 <= i < head.len() && head[i] == l;
                    assert(now[i] == l);
                }
            }
            if now.contains(l) {
                let i = choose|i: int| 0 <= i < now.len() && now[i] == l;
                if i == n - 1 {
                    assert(after[at] == l);
                } else {
                    assert(head[i] == l);
                    assert(before.contains(l));
                    let b = choose|b: int| 0 <= b < before.len() && before[b] == l;
                    assert(after[if b < at {
                        b
                    } else {
                        b + 1
                    }] == l);
                }
            }
        }
    }
}

proof fn sorted_lists_of_the_same_files_are_the_same(a: Seq<Leaf>, b: Seq<Leaf>)
    requires
        sorted(a),
        sorted(b),
        a.len() == b.len(),
        forall|l: Leaf| a.contains(l) <==> b.contains(l),
    ensures
        a == b,
    decreases a.len(),
{
    if a.len() > 0 {
        assert(a.contains(a[0]) && b.contains(b[0]));
        let i = choose|i: int| 0 <= i < b.len() && b[i] == a[0];
        let j = choose|j: int| 0 <= j < a.len() && a[j] == b[0];
        if i > 0 {
            paths::path_order_is_total(a[0].path, b[0].path);
            assert(paths::path_before(b[0].path, b[i].path));
            if j > 0 {
                assert(paths::path_before(a[0].path, a[j].path));
            }
        }
        assert(a[0] == b[0]);
        let (x, y) = (a.drop_first(), b.drop_first());
        assert forall|l: Leaf| x.contains(l) <==> y.contains(l) by {
            if x.contains(l) {
                let k = choose|k: int| 0 <= k < x.len() && x[k] == l;
                assert(a[k + 1] == l);
                assert(b.contains(l));
                let m = choose|m: int| 0 <= m < b.len() && b[m] == l;
                paths::path_order_is_total(a[0].path, a[k + 1].path);
                assert(m != 0);
                assert(y[m - 1] == l);
            }
            if y.contains(l) {
                let k = choose|k: int| 0 <= k < y.len() && y[k] == l;
                assert(b[k + 1] == l);
                assert(a.contains(l));
                let m = choose|m: int| 0 <= m < a.len() && a[m] == l;
                paths::path_order_is_total(b[0].path, b[k + 1].path);
                assert(m != 0);
                assert(x[m - 1] == l);
            }
        }
        sorted_lists_of_the_same_files_are_the_same(x, y);
        assert(a =~= seq![a[0]] + x);
        assert(b =~= seq![b[0]] + y);
    } else {
        assert(a =~= b);
    }
}

/// A tree adds the same to a key in whatever order its files were found.
pub proof fn trees_hash_in_any_order(a: Seq<Leaf>, b: Seq<Leaf>)
    requires
        paths_differ(a),
        paths_differ(b),
        a.len() == b.len(),
        forall|l: Leaf| a.contains(l) <==> b.contains(l),
    ensures
        tree_bytes(by_path(a, a.len()), a.len()) == tree_bytes(by_path(b, b.len()), b.len()),
{
    sorting_sorts(a, a.len());
    sorting_sorts(b, b.len());
    assert(a.take(a.len() as int) =~= a);
    assert(b.take(b.len() as int) =~= b);
    sorted_lists_of_the_same_files_are_the_same(by_path(a, a.len()), by_path(b, b.len()));
}

/// Whether a text holds no zero: no path, argument or value of a build does.
pub open spec fn unbroken(s: Seq<char>) -> bool {
    !s.contains('\0')
}

/// An ASCII character that a text does not hold is no byte of it either.
proof fn byte_is_absent(s: Seq<char>, c: char)
    requires
        (c as u32) < 0x80,
        !s.contains(c),
    ensures
        !vstd::utf8::encode_utf8(s).contains(c as u8),
    decreases s.len(),
{
    if s.len() > 0 {
        let v = s[0] as u32;
        let first = vstd::utf8::encode_scalar(v);
        let rest = vstd::utf8::encode_utf8(s.drop_first());
        let b = c as u8;
        assert(b == c as u32);
        vstd::utf8::char_is_scalar(s[0]);
        assert forall|i: int| 0 <= i < first.len() implies first[i] != b by {
            if v <= 0x7F {
                assert((v & 0x7F) as u8 as u32 == v) by (bit_vector)
                    requires
                        v <= 0x7F,
                ;
                vstd::utf8::char_u32_cast(s[0], v);
                vstd::utf8::char_u32_cast(c, c as u32);
                assert(s[0] != c && v != c as u32);
            } else {
                assert((0xC0u8 | ((v >> 6) & 0x1F) as u8) >= 0x80) by (bit_vector);
                assert((0xE0u8 | ((v >> 12) & 0x0F) as u8) >= 0x80) by (bit_vector);
                assert((0xF0u8 | ((v >> 18) & 0x7) as u8) >= 0x80) by (bit_vector);
                assert((0x80u8 | (v & 0x3F) as u8) >= 0x80) by (bit_vector);
                assert((0x80u8 | ((v >> 6) & 0x3F) as u8) >= 0x80) by (bit_vector);
                assert((0x80u8 | ((v >> 12) & 0x3F) as u8) >= 0x80) by (bit_vector);
                assert(first[i] >= 0x80);
            }
        }
        assert forall|i: int| 0 <= i < s.drop_first().len() implies s.drop_first()[i] != c by {
            assert(s.drop_first()[i] == s[i + 1]);
        }
        byte_is_absent(s.drop_first(), c);
        assert forall|i: int| 0 <= i < (first + rest).len() implies (first + rest)[i] != b by {
            if i >= first.len() {
                assert((first + rest)[i] == rest[i - first.len()]);
            }
        }
    }
}

proof fn parts_at_mark(a: Seq<u8>, b: Seq<u8>, m: u8, r: Seq<u8>, q: Seq<u8>)
    requires
        !a.contains(m),
        !b.contains(m),
        a.push(m) + r == b.push(m) + q,
    ensures
        a == b,
        r == q,
{
    let (x, y) = (a.push(m) + r, b.push(m) + q);
    assert(x[a.len() as int] == m && y[b.len() as int] == m);
    if a.len() < b.len() {
        assert(y[a.len() as int] == b[a.len() as int]);
    } else if b.len() < a.len() {
        assert(x[b.len() as int] == a[b.len() as int]);
    }
    assert(a =~= x.subrange(0, a.len() as int));
    assert(b =~= y.subrange(0, b.len() as int));
    assert(r =~= x.subrange((a.len() + 1) as int, x.len() as int));
    assert(q =~= y.subrange((b.len() + 1) as int, y.len() as int));
}

proof fn texts_of_bytes(x: Seq<char>, y: Seq<char>)
    requires
        vstd::utf8::encode_utf8(x) == vstd::utf8::encode_utf8(y),
    ensures
        x == y,
{
    vstd::utf8::encode_utf8_decode_utf8(x);
    vstd::utf8::encode_utf8_decode_utf8(y);
}

/// A text in a key is never mistaken for another, whatever follows it.
pub proof fn texts_keep_apart(x: Seq<char>, y: Seq<char>, r: Seq<u8>, q: Seq<u8>)
    requires
        unbroken(x),
        unbroken(y),
        ended(x) + r == ended(y) + q,
    ensures
        x == y,
        r == q,
{
    byte_is_absent(x, '\0');
    byte_is_absent(y, '\0');
    parts_at_mark(vstd::utf8::encode_utf8(x), vstd::utf8::encode_utf8(y), 0, r, q);
    texts_of_bytes(x, y);
}

/// A labelled value in a key is never mistaken for another, whatever follows it.
pub proof fn fields_keep_apart(
    label: Seq<char>,
    value: Seq<char>,
    other: Seq<char>,
    other_value: Seq<char>,
    r: Seq<u8>,
    q: Seq<u8>,
)
    requires
        !label.contains('='),
        !other.contains('='),
        unbroken(value),
        unbroken(other_value),
        field_bytes(label, value) + r == field_bytes(other, other_value) + q,
    ensures
        label == other,
        value == other_value,
        r == q,
{
    let (a, b) = (vstd::utf8::encode_utf8(label), vstd::utf8::encode_utf8(other));
    byte_is_absent(label, '=');
    byte_is_absent(other, '=');
    assert(field_bytes(label, value) + r =~= a.push(61u8) + (ended(value) + r));
    assert(field_bytes(other, other_value) + q =~= b.push(61u8) + (ended(other_value) + q));
    parts_at_mark(a, b, 61, ended(value) + r, ended(other_value) + q);
    texts_of_bytes(label, other);
    texts_keep_apart(value, other_value, r, q);
}

/// A file's contents in a key are never mistaken for another's, whatever follows them.
pub proof fn files_keep_apart(x: Seq<u8>, y: Seq<u8>, r: Seq<u8>, q: Seq<u8>)
    requires
        x.len() <= u64::MAX,
        y.len() <= u64::MAX,
        file_bytes(x) + r == file_bytes(y) + q,
    ensures
        x == y,
        r == q,
{
    assert(file_bytes(x) + r =~= bytes::le64_bytes(x.len() as int) + (x + r));
    assert(file_bytes(y) + q =~= bytes::le64_bytes(y.len() as int) + (y + q));
    bytes::le64_keeps_apart(x.len() as int, y.len() as int, x + r, y + q);
    bytes::parts_keep_apart(x, y, r, q);
}

proof fn args_from_the_first(args: Seq<Seq<char>>, n: nat)
    requires
        0 < n <= args.len(),
    ensures
        args_bytes(args, n) == ended(args[0]) + args_bytes(args.drop_first(), (n - 1) as nat),
    decreases n,
{
    let rest = args.drop_first();
    if n == 1 {
        assert(args_bytes(args, 0) =~= seq![]);
        assert(args_bytes(rest, 0) =~= seq![]);
        assert(args_bytes(args, 1) =~= ended(args[0]) + args_bytes(rest, 0));
    } else {
        args_from_the_first(args, (n - 1) as nat);
        assert(rest[n - 2] == args[n - 1]);
        assert(args_bytes(args, n) =~= ended(args[0]) + (args_bytes(rest, (n - 2) as nat) + ended(args[n - 1])));
    }
}

/// Different arguments, or the same in another order, make different keys, as far as the hash does.
pub proof fn arguments_keep_apart(a: Seq<Seq<char>>, b: Seq<Seq<char>>)
    requires
        forall|i: int| 0 <= i < a.len() ==> unbroken(#[trigger] a[i]),
        forall|i: int| 0 <= i < b.len() ==> unbroken(#[trigger] b[i]),
        args_bytes(a, a.len()) == args_bytes(b, b.len()),
    ensures
        a == b,
    decreases a.len(),
{
    if a.len() > 0 {
        args_from_the_first(a, a.len());
        assert(args_bytes(a, a.len()).len() > 0);
    }
    if b.len() > 0 {
        args_from_the_first(b, b.len());
        assert(args_bytes(b, b.len()).len() > 0);
    }
    if a.len() > 0 && b.len() > 0 {
        let (x, y) = (a.drop_first(), b.drop_first());
        texts_keep_apart(a[0], b[0], args_bytes(x, x.len()), args_bytes(y, y.len()));
        assert forall|i: int| 0 <= i < x.len() implies unbroken(#[trigger] x[i]) by {
            assert(x[i] == a[i + 1]);
        }
        assert forall|i: int| 0 <= i < y.len() implies unbroken(#[trigger] y[i]) by {
            assert(y[i] == b[i + 1]);
        }
        arguments_keep_apart(x, y);
        assert(a =~= seq![a[0]] + x);
        assert(b =~= seq![b[0]] + y);
    } else {
        assert(a =~= b);
    }
}

proof fn tree_from_the_first(files: Seq<Leaf>, n: nat)
    requires
        0 < n <= files.len(),
    ensures
        tree_bytes(files, n) == ended(files[0].path) + (file_bytes(files[0].data) + tree_bytes(
            files.drop_first(),
            (n - 1) as nat,
        )),
    decreases n,
{
    let rest = files.drop_first();
    let head = ended(files[0].path) + file_bytes(files[0].data);
    if n == 1 {
        assert(tree_bytes(files, 0) =~= seq![]);
        assert(tree_bytes(rest, 0) =~= seq![]);
        assert(tree_bytes(files, 1) =~= head);
    } else {
        tree_from_the_first(files, (n - 1) as nat);
        let last = files[n - 1];
        assert(rest[n - 2] == last);
        assert(tree_bytes(files, n) =~= head + (tree_bytes(rest, (n - 2) as nat) + ended(last.path) + file_bytes(
            last.data,
        )));
    }
    assert(tree_bytes(files, n) =~= ended(files[0].path) + (file_bytes(files[0].data) + tree_bytes(
        rest,
        (n - 1) as nat,
    )));
}

/// A file that is added, removed, renamed or changed makes another key, as far as the hash does.
pub proof fn trees_keep_apart(a: Seq<Leaf>, b: Seq<Leaf>)
    requires
        forall|i: int| 0 <= i < a.len() ==> unbroken((#[trigger] a[i]).path) && a[i].data.len() <= u64::MAX,
        forall|i: int| 0 <= i < b.len() ==> unbroken((#[trigger] b[i]).path) && b[i].data.len() <= u64::MAX,
        tree_bytes(a, a.len()) == tree_bytes(b, b.len()),
    ensures
        a == b,
    decreases a.len(),
{
    if a.len() > 0 {
        tree_from_the_first(a, a.len());
        assert(tree_bytes(a, a.len()).len() > 0);
    }
    if b.len() > 0 {
        tree_from_the_first(b, b.len());
        assert(tree_bytes(b, b.len()).len() > 0);
    }
    if a.len() > 0 && b.len() > 0 {
        let (x, y) = (a.drop_first(), b.drop_first());
        let (r, q) = (tree_bytes(x, x.len()), tree_bytes(y, y.len()));
        texts_keep_apart(a[0].path, b[0].path, file_bytes(a[0].data) + r, file_bytes(b[0].data) + q);
        files_keep_apart(a[0].data, b[0].data, r, q);
        assert forall|i: int| 0 <= i < x.len() implies unbroken((#[trigger] x[i]).path) && x[i].data.len()
            <= u64::MAX by {
            assert(x[i] == a[i + 1]);
        }
        assert forall|i: int| 0 <= i < y.len() implies unbroken((#[trigger] y[i]).path) && y[i].data.len()
            <= u64::MAX by {
            assert(y[i] == b[i + 1]);
        }
        trees_keep_apart(x, y);
        assert(a =~= seq![a[0]] + x);
        assert(b =~= seq![b[0]] + y);
    } else {
        assert(a =~= b);
    }
}

} // verus!
