//! The files of a volume, arranged in directories.
//!
//! Directories stand in one list, each by its path of stored names, in the order in which a
//! walk meets them: a directory before what is below it, and otherwise by name. Files stand in
//! another, by directory and then by name.

use vstd::prelude::*;
use vstd::string::*;

use crate::fat16;
use crate::fat16::File;
use crate::text;

verus! {

/// A file over mathematical values.
pub struct Item {
    pub path: Seq<char>,
    pub data: Seq<u8>,
}

pub open spec fn items(v: Seq<File<'_>>) -> Seq<Item> {
    Seq::new(v.len(), |i: int| Item { path: v[i].path@, data: v[i].data@ })
}

/// A file in its directory.
pub struct Leaf {
    pub dir: Seq<Seq<u8>>,
    pub name: Seq<u8>,
    pub data: Seq<u8>,
}

/// Directories, the root first, and the files in them.
pub struct Tree {
    pub dirs: Seq<Seq<Seq<u8>>>,
    pub files: Seq<Leaf>,
}

/// Whether name `a` comes before `b`, the first `i` bytes being the same.
pub open spec fn name_less(a: Seq<u8>, b: Seq<u8>, i: int) -> bool
    decreases b.len() - i,
{
    if i < 0 || i >= b.len() {
        false
    } else if i >= a.len() {
        true
    } else if a[i] != b[i] {
        a[i] < b[i]
    } else {
        name_less(a, b, i + 1)
    }
}

/// Whether path `a` comes before `b`, the first `i` names being the same.
pub open spec fn path_less(a: Seq<Seq<u8>>, b: Seq<Seq<u8>>, i: int) -> bool
    decreases b.len() - i,
{
    if i < 0 || i >= b.len() {
        false
    } else if i >= a.len() {
        true
    } else if a[i] != b[i] {
        name_less(a[i], b[i], 0)
    } else {
        path_less(a, b, i + 1)
    }
}

/// Whether the file `x` comes before one called `name` in `dir`.
pub open spec fn leaf_less(x: Leaf, dir: Seq<Seq<u8>>, name: Seq<u8>) -> bool {
    if x.dir != dir {
        path_less(x.dir, dir, 0)
    } else {
        name_less(x.name, name, 0)
    }
}

/// Where `dir` belongs among the directories from `i` on.
pub open spec fn dir_slot(dirs: Seq<Seq<Seq<u8>>>, dir: Seq<Seq<u8>>, i: int) -> int
    decreases dirs.len() - i,
{
    if 0 <= i < dirs.len() && path_less(dirs[i], dir, 0) {
        dir_slot(dirs, dir, i + 1)
    } else {
        i
    }
}

/// Where a file called `name` in `dir` belongs among the files from `i` on.
pub open spec fn file_slot(files: Seq<Leaf>, dir: Seq<Seq<u8>>, name: Seq<u8>, i: int) -> int
    decreases files.len() - i,
{
    if 0 <= i < files.len() && leaf_less(files[i], dir, name) {
        file_slot(files, dir, name, i + 1)
    } else {
        i
    }
}

/// Whether there is a file called `name` in `dir`.
pub open spec fn has_file(t: Tree, dir: Seq<Seq<u8>>, name: Seq<u8>) -> bool {
    exists|k: int| 0 <= k < t.files.len() && (#[trigger] t.files[k]).dir == dir && t.files[k].name == name
}

/// `t` with the directory `dir`.
pub open spec fn with_dir(t: Tree, dir: Seq<Seq<u8>>) -> Tree {
    if t.dirs.contains(dir) {
        t
    } else {
        Tree { dirs: t.dirs.insert(dir_slot(t.dirs, dir, 0), dir), ..t }
    }
}

/// `t` with a file more.
pub open spec fn with_file(t: Tree, l: Leaf) -> Tree {
    Tree { files: t.files.insert(file_slot(t.files, l.dir, l.name, 0), l), ..t }
}

/// The root, with nothing in it.
pub open spec fn bare() -> Tree {
    Tree { dirs: seq![seq![]], files: seq![] }
}

/// `t` with `f`, whose path's components from `i` on lie below `dir`.
pub open spec fn grown(t: Tree, f: Item, what: Seq<char>, comps: Seq<Seq<char>>, i: int, dir: Seq<Seq<u8>>) -> Result<
    Tree,
    Seq<char>,
>
    decreases comps.len() - i,
{
    if i < 0 || i >= comps.len() {
        Ok(t)
    } else {
        match fat16::stored(comps[i]) {
            None => Err(fat16::not_a_name(comps[i])),
            Some(n) => if i + 1 == comps.len() {
                if t.dirs.contains(dir.push(n)) || has_file(t, dir, n) {
                    Err("`"@ + f.path + "` is on "@ + what + " twice"@)
                } else {
                    Ok(with_file(t, Leaf { dir, name: n, data: f.data }))
                }
            } else if has_file(t, dir, n) {
                Err("`"@ + comps[i] + "` in `"@ + f.path + "` is a file, not a directory"@)
            } else {
                grown(with_dir(t, dir.push(n)), f, what, comps, i + 1, dir.push(n))
            },
        }
    }
}

/// The first `k` files, arranged.
pub open spec fn planted(files: Seq<Item>, what: Seq<char>, k: nat) -> Result<Tree, Seq<char>>
    decreases k,
{
    if k == 0 {
        Ok(bare())
    } else {
        match planted(files, what, (k - 1) as nat) {
            Ok(t) => grown(t, files[k - 1], what, text::pieces(files[k - 1].path, '/', 0), 0, seq![]),
            Err(e) => Err(e),
        }
    }
}

// ---- the same, executable ----

pub struct LeafRec<'a> {
    pub dir: Vec<[u8; 11]>,
    pub name: [u8; 11],
    pub data: &'a [u8],
}

pub struct TreeRec<'a> {
    pub dirs: Vec<Vec<[u8; 11]>>,
    pub files: Vec<LeafRec<'a>>,
}

pub open spec fn names(v: Seq<[u8; 11]>) -> Seq<Seq<u8>> {
    Seq::new(v.len(), |i: int| v[i]@)
}

impl<'a> View for LeafRec<'a> {
    type V = Leaf;

    open spec fn view(&self) -> Leaf {
        Leaf { dir: names(self.dir@), name: self.name@, data: self.data@ }
    }
}

pub open spec fn dir_views(v: Seq<Vec<[u8; 11]>>) -> Seq<Seq<Seq<u8>>> {
    Seq::new(v.len(), |i: int| names(v[i]@))
}

pub open spec fn leaf_views(v: Seq<LeafRec<'_>>) -> Seq<Leaf> {
    Seq::new(v.len(), |i: int| v[i]@)
}

impl<'a> View for TreeRec<'a> {
    type V = Tree;

    open spec fn view(&self) -> Tree {
        Tree { dirs: dir_views(self.dirs@), files: leaf_views(self.files@) }
    }
}

pub fn same_name(a: &[u8; 11], b: &[u8; 11]) -> (r: bool)
    ensures
        r == (a@ == b@),
{
    let mut i: usize = 0;
    while i < 11
        invariant
            i <= 11,
            forall|k: int| 0 <= k < i ==> a@[k] == b@[k],
        decreases 11 - i,
    {
        if a[i] != b[i] {
            assert(a@[i as int] != b@[i as int]);
            return false;
        }
        i += 1;
    }
    assert(a@ =~= b@);
    true
}

fn name_comes_first(a: &[u8; 11], b: &[u8; 11]) -> (r: bool)
    ensures
        r == name_less(a@, b@, 0),
{
    let mut i: usize = 0;
    while i < 11
        invariant
            i <= 11,
            name_less(a@, b@, 0) == name_less(a@, b@, i as int),
        decreases 11 - i,
    {
        if a[i] != b[i] {
            return a[i] < b[i];
        }
        i += 1;
    }
    false
}

pub fn same_path(a: &Vec<[u8; 11]>, b: &Vec<[u8; 11]>) -> (r: bool)
    ensures
        r == (names(a@) == names(b@)),
{
    if a.len() != b.len() {
        assert(names(a@).len() != names(b@).len());
        return false;
    }
    let mut i: usize = 0;
    while i < a.len()
        invariant
            a@.len() == b@.len(),
            i <= a@.len(),
            forall|k: int| 0 <= k < i ==> names(a@)[k] == names(b@)[k],
        decreases a@.len() - i,
    {
        if !same_name(&a[i], &b[i]) {
            assert(names(a@)[i as int] != names(b@)[i as int]);
            return false;
        }
        i += 1;
    }
    assert(names(a@) =~= names(b@));
    true
}

fn path_comes_first(a: &Vec<[u8; 11]>, b: &Vec<[u8; 11]>) -> (r: bool)
    ensures
        r == path_less(names(a@), names(b@), 0),
{
    let ghost x = names(a@);
    let ghost y = names(b@);
    let mut i: usize = 0;
    while i < b.len()
        invariant
            x == names(a@),
            y == names(b@),
            i <= b@.len(),
            path_less(x, y, 0) == path_less(x, y, i as int),
        decreases b@.len() - i,
    {
        if i >= a.len() {
            return true;
        }
        assert(x[i as int] == a@[i as int]@ && y[i as int] == b@[i as int]@);
        if !same_name(&a[i], &b[i]) {
            return name_comes_first(&a[i], &b[i]);
        }
        i += 1;
    }
    false
}

pub fn copy_path(p: &Vec<[u8; 11]>) -> (r: Vec<[u8; 11]>)
    ensures
        names(r@) == names(p@),
{
    let mut r: Vec<[u8; 11]> = Vec::new();
    let mut i: usize = 0;
    while i < p.len()
        invariant
            i <= p@.len(),
            r@.len() == i,
            forall|k: int| 0 <= k < i ==> r@[k] == p@[k],
        decreases p@.len() - i,
    {
        r.push(p[i]);
        i += 1;
    }
    assert(names(r@) =~= names(p@));
    r
}

impl<'a> TreeRec<'a> {
    fn has_dir(&self, dir: &Vec<[u8; 11]>) -> (r: bool)
        ensures
            r == self@.dirs.contains(names(dir@)),
    {
        let mut i: usize = 0;
        while i < self.dirs.len()
            invariant
                i <= self.dirs@.len(),
                forall|k: int| 0 <= k < i ==> #[trigger] self@.dirs[k] != names(dir@),
            decreases self.dirs@.len() - i,
        {
            assert(self@.dirs[i as int] == names(self.dirs@[i as int]@));
            if same_path(&self.dirs[i], dir) {
                return true;
            }
            i += 1;
        }
        false
    }

    fn has_file(&self, dir: &Vec<[u8; 11]>, name: &[u8; 11]) -> (r: bool)
        ensures
            r == has_file(self@, names(dir@), name@),
    {
        let mut i: usize = 0;
        while i < self.files.len()
            invariant
                i <= self.files@.len(),
                forall|k: int|
                    0 <= k < i ==> !((#[trigger] self@.files[k]).dir == names(dir@) && self@.files[k].name == name@),
            decreases self.files@.len() - i,
        {
            assert(self@.files[i as int] == self.files@[i as int]@);
            if same_name(&self.files[i].name, name) && same_path(&self.files[i].dir, dir) {
                return true;
            }
            i += 1;
        }
        false
    }

    fn add_dir(&mut self, dir: Vec<[u8; 11]>)
        ensures
            final(self)@ == with_dir(old(self)@, names(dir@)),
    {
        if self.has_dir(&dir) {
            return;
        }
        let ghost t = self@;
        let ghost d = names(dir@);
        let mut i: usize = 0;
        while i < self.dirs.len() && path_comes_first(&self.dirs[i], &dir)
            invariant
                self@ == t,
                d == names(dir@),
                i <= self.dirs@.len(),
                dir_slot(t.dirs, d, 0) == dir_slot(t.dirs, d, i as int),
            decreases self.dirs@.len() - i,
        {
            assert(t.dirs[i as int] == names(self.dirs@[i as int]@));
            i += 1;
        }
        assert(i < self.dirs@.len() ==> t.dirs[i as int] == names(self.dirs@[i as int]@));
        self.dirs.insert(i, dir);
        assert(self@.dirs =~= t.dirs.insert(i as int, d));
        assert(self@.files =~= t.files);
    }

    fn add_file(&mut self, l: LeafRec<'a>)
        ensures
            final(self)@ == with_file(old(self)@, l@),
    {
        let ghost t = self@;
        let mut i: usize = 0;
        while i < self.files.len()
            invariant_except_break
                self@ == t,
                i <= self.files@.len(),
                file_slot(t.files, l@.dir, l@.name, 0) == file_slot(t.files, l@.dir, l@.name, i as int),
            ensures
                self@ == t,
                i <= self.files@.len(),
                i == file_slot(t.files, l@.dir, l@.name, 0),
            decreases self.files@.len() - i,
        {
            assert(t.files[i as int] == self.files@[i as int]@);
            let f = &self.files[i];
            let first = if same_path(&f.dir, &l.dir) {
                name_comes_first(&f.name, &l.name)
            } else {
                path_comes_first(&f.dir, &l.dir)
            };
            if !first {
                break;
            }
            i += 1;
        }
        let ghost v = l@;
        self.files.insert(i, l);
        assert(self@.files =~= t.files.insert(i as int, v));
        assert(self@.dirs =~= t.dirs);
    }

    fn add(&mut self, f: &File<'a>, what: &str) -> (r: Result<(), String>)
        ensures
            match r {
                Ok(_) => grown(
                    old(self)@,
                    Item { path: f.path@, data: f.data@ },
                    what@,
                    text::pieces(f.path@, '/', 0),
                    0,
                    seq![],
                ) == Ok::<Tree, Seq<char>>(final(self)@),
                Err(m) => grown(
                    old(self)@,
                    Item { path: f.path@, data: f.data@ },
                    what@,
                    text::pieces(f.path@, '/', 0),
                    0,
                    seq![],
                ) == Err::<Tree, Seq<char>>(m@),
            },
    {
        let chars = text::chars(f.path);
        let comps = text::split_on(chars.as_slice(), '/');
        let ghost cs = text::char_views(comps@);
        let ghost item = Item { path: f.path@, data: f.data@ };
        let ghost all = grown(self@, item, what@, cs, 0, seq![]);
        let mut dir: Vec<[u8; 11]> = Vec::new();
        assert(names(dir@) =~= seq![]);
        let mut i: usize = 0;
        while i < comps.len()
            invariant
                cs == text::char_views(comps@),
                cs == text::pieces(f.path@, '/', 0),
                item == (Item { path: f.path@, data: f.data@ }),
                i <= comps@.len(),
                all == grown(old(self)@, item, what@, cs, 0, seq![]),
                grown(self@, item, what@, cs, i as int, names(dir@)) == all,
            decreases comps@.len() - i,
        {
            assert(cs[i as int] == comps@[i as int]@);
            let comp = text::string(comps[i].as_slice());
            let name = match fat16::short_name(comp.as_str()) {
                Ok(n) => n,
                Err(m) => return Err(m),
            };
            let ghost above = names(dir@);
            if i + 1 == comps.len() {
                let mut whole = copy_path(&dir);
                let ghost copied = whole@;
                whole.push(name);
                assert(names(whole@) =~= above.push(name@));
                if self.has_dir(&whole) || self.has_file(&dir, &name) {
                    let mut m = "`".to_owned();
                    m.append(f.path);
                    m.append("` is on ");
                    m.append(what);
                    m.append(" twice");
                    return Err(m);
                }
                self.add_file(LeafRec { dir, name, data: f.data });
                return Ok(());
            }
            if self.has_file(&dir, &name) {
                let mut m = "`".to_owned();
                m.append(comp.as_str());
                m.append("` in `");
                m.append(f.path);
                m.append("` is a file, not a directory");
                return Err(m);
            }
            dir.push(name);
            assert(names(dir@) =~= above.push(name@));
            self.add_dir(copy_path(&dir));
            i += 1;
        }
        Ok(())
    }
}

/// The files, arranged in directories.
pub fn plant<'a>(files: &[File<'a>], what: &str) -> (r: Result<TreeRec<'a>, String>)
    ensures
        match r {
            Ok(t) => planted(items(files@), what@, files@.len()) == Ok::<Tree, Seq<char>>(t@),
            Err(m) => planted(items(files@), what@, files@.len()) == Err::<Tree, Seq<char>>(m@),
        },
{
    let mut dirs: Vec<Vec<[u8; 11]>> = Vec::new();
    let root: Vec<[u8; 11]> = Vec::new();
    assert(names(root@) =~= seq![]);
    dirs.push(root);
    let mut t = TreeRec { dirs, files: Vec::new() };
    assert(t@.dirs =~= bare().dirs);
    assert(t@.files =~= bare().files);
    let ghost all = items(files@);
    let mut k: usize = 0;
    while k < files.len()
        invariant
            all == items(files@),
            k <= files@.len(),
            planted(all, what@, k as nat) == Ok::<Tree, Seq<char>>(t@),
        decreases files@.len() - k,
    {
        match t.add(&files[k], what) {
            Ok(_) => {},
            Err(m) => {
                proof {
                    planting_fails(all, what@, (k + 1) as nat, files@.len());
                }
                return Err(m);
            },
        }
        k += 1;
    }
    Ok(t)
}

proof fn planting_fails(files: Seq<Item>, what: Seq<char>, k: nat, n: nat)
    requires
        k <= n,
        planted(files, what, k) is Err,
    ensures
        planted(files, what, n) == planted(files, what, k),
    decreases n,
{
    if k < n {
        planting_fails(files, what, k, (n - 1) as nat);
    }
}

} // verus!
