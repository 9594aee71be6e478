//! Building a symbol table: each declaration and attribute, and that a table stays one the
//! other parts can rely on.

use vstd::prelude::*;

use super::expr::Expr;
use super::{Choice, Kind, Menu, Range, Select, Symbol, SymbolTable};
use crate::text;

verus! {

/// `t` with the symbol at `i` replaced.
pub open spec fn with_sym(t: super::Table, i: int, s: super::Sym) -> super::Table {
    super::Table { symbols: t.symbols.update(i, s), choices: t.choices, menus: t.menus }
}

/// `t` with the choice at `c` replaced.
pub open spec fn with_group(t: super::Table, c: int, g: super::Group) -> super::Table {
    super::Table { symbols: t.symbols, choices: t.choices.update(c, g), menus: t.menus }
}

/// `t` with a symbol more.
pub open spec fn with_new_sym(t: super::Table, s: super::Sym) -> super::Table {
    super::Table { symbols: t.symbols.push(s), choices: t.choices, menus: t.menus }
}

/// `t` with a menu more.
pub open spec fn with_menu(t: super::Table, p: super::Page) -> super::Table {
    super::Table { symbols: t.symbols, choices: t.choices, menus: t.menus.push(p) }
}

/// The first place from `i` on whose choice does not come before `name`.
pub open spec fn slot(groups: Seq<super::Group>, name: Seq<char>, i: int) -> int
    decreases groups.len() - i,
{
    if 0 <= i < groups.len() && text::before(groups[i].name, name) {
        slot(groups, name, i + 1)
    } else {
        i
    }
}

/// `t` with a choice more, in the order of names; one of the same name is replaced.
pub open spec fn with_choice(t: super::Table, g: super::Group) -> super::Table {
    let k = slot(t.choices, g.name, 0);
    super::Table {
        symbols: t.symbols,
        choices: if k < t.choices.len() && t.choices[k].name == g.name {
            t.choices.update(k, g)
        } else {
            t.choices.insert(k, g)
        },
        menus: t.menus,
    }
}

proof fn same_names_found(a: Seq<super::Sym>, b: Seq<super::Sym>, name: Seq<char>, i: int)
    requires
        a.len() <= b.len(),
        forall|k: int| 0 <= k < a.len() ==> (#[trigger] a[k]).name == b[k].name,
        0 <= i <= a.len(),
    ensures
        super::sym_from(a, name, i) is Some ==> super::sym_from(b, name, i) == super::sym_from(a, name, i),
        a.len() == b.len() ==> super::sym_from(b, name, i) == super::sym_from(a, name, i),
    decreases a.len() - i,
{
    if i < a.len() {
        assert(a[i].name == b[i].name);
        if a[i].name != name {
            same_names_found(a, b, name, i + 1);
        }
    }
}

proof fn found_in_range(a: Seq<super::Sym>, name: Seq<char>, i: int)
    requires
        0 <= i,
    ensures
        super::sym_from(a, name, i) is Some ==> i <= super::sym_from(a, name, i)->0 < a.len()
            && a[super::sym_from(a, name, i)->0].name == name,
        super::sym_from(a, name, i) is None ==> forall|k: int| i <= k < a.len() ==> (#[trigger] a[k]).name != name,
    decreases a.len() - i,
{
    if i < a.len() && a[i].name != name {
        found_in_range(a, name, i + 1);
    }
}

proof fn group_found_in_range(a: Seq<super::Group>, name: Seq<char>, i: int)
    requires
        0 <= i,
    ensures
        super::group_from(a, name, i) is Some ==> i <= super::group_from(a, name, i)->0 < a.len()
            && a[super::group_from(a, name, i)->0].name == name,
        (exists|k: int| i <= k < a.len() && (#[trigger] a[k]).name == name) ==> super::group_from(a, name, i) is Some,
    decreases a.len() - i,
{
    if i < a.len() && a[i].name != name {
        group_found_in_range(a, name, i + 1);
    }
}

/// Whether every range of a symbol is one of 64-bit bounds.
pub open spec fn ranges_sound(s: super::Sym) -> bool {
    forall|k: int|
        0 <= k < s.ranges.len() ==> i64::MIN <= (#[trigger] s.ranges[k]).lo <= s.ranges[k].hi <= u64::MAX
}

/// A symbol can change in anything but its name, its choice and its menu.
pub(crate) proof fn sym_edit_keeps(t: super::Table, i: int, s: super::Sym)
    requires
        super::well_formed(t),
        0 <= i < t.symbols.len(),
        s.name == t.symbols[i].name,
        s.choice == t.symbols[i].choice,
        s.menu == t.symbols[i].menu,
        ranges_sound(s),
    ensures
        super::well_formed(with_sym(t, i, s)),
{
    let n = with_sym(t, i, s);
    assert forall|c: int, m: int| 0 <= c < n.choices.len() && 0 <= m < n.choices[c].members.len() implies super::belongs(
        n,
        #[trigger] n.choices[c].members[m],
        n.choices[c].name,
    ) by {
        let name = t.choices[c].members[m];
        assert(super::belongs(t, name, t.choices[c].name));
        same_names_found(t.symbols, n.symbols, name, 0);
        found_in_range(t.symbols, name, 0);
    }
    assert forall|k: int| 0 <= k < n.symbols.len() implies super::sym_sound(n, #[trigger] n.symbols[k]) by {
        assert(super::sym_sound(t, t.symbols[k]));
    }
}

/// A choice can change in anything but its name, its members and its menu.
pub(crate) proof fn group_edit_keeps(t: super::Table, c: int, g: super::Group)
    requires
        super::well_formed(t),
        0 <= c < t.choices.len(),
        g.name == t.choices[c].name,
        g.menu == t.choices[c].menu,
        forall|m: int| 0 <= m < g.members.len() ==> super::belongs(t, #[trigger] g.members[m], g.name),
    ensures
        super::well_formed(with_group(t, c, g)),
{
    let n = with_group(t, c, g);
    assert forall|d: int, m: int| 0 <= d < n.choices.len() && 0 <= m < n.choices[d].members.len() implies super::belongs(
        n,
        #[trigger] n.choices[d].members[m],
        n.choices[d].name,
    ) by {
        if d == c {
            assert(super::belongs(t, g.members[m], g.name));
        } else {
            assert(super::belongs(t, t.choices[d].members[m], t.choices[d].name));
        }
    }
    assert forall|k: int| 0 <= k < n.symbols.len() implies super::sym_sound(n, #[trigger] n.symbols[k]) by {
        assert(super::sym_sound(t, t.symbols[k]));
        let s = t.symbols[k];
        if s.choice is Some {
            group_found_in_range(t.choices, s.choice->0, 0);
            let p = super::group_from(t.choices, s.choice->0, 0)->0;
            assert(n.choices[p].name == s.choice->0);
            group_found_in_range(n.choices, s.choice->0, 0);
        }
    }
}

/// A symbol of a new name can be added.
pub(crate) proof fn new_sym_keeps(t: super::Table, s: super::Sym)
    requires
        super::well_formed(t),
        super::sym_from(t.symbols, s.name, 0) is None,
        super::sym_sound(t, s),
    ensures
        super::well_formed(with_new_sym(t, s)),
        super::sym_from(with_new_sym(t, s).symbols, s.name, 0) == Some(t.symbols.len() as int),
{
    let n = with_new_sym(t, s);
    found_in_range(t.symbols, s.name, 0);
    found_in_range(n.symbols, s.name, 0);
    assert(n.symbols[t.symbols.len() as int].name == s.name);
    assert forall|c: int, m: int| 0 <= c < n.choices.len() && 0 <= m < n.choices[c].members.len() implies super::belongs(
        n,
        #[trigger] n.choices[c].members[m],
        n.choices[c].name,
    ) by {
        let name = t.choices[c].members[m];
        assert(super::belongs(t, name, t.choices[c].name));
        same_names_found(t.symbols, n.symbols, name, 0);
        found_in_range(t.symbols, name, 0);
    }
    assert forall|k: int| 0 <= k < n.symbols.len() implies super::sym_sound(n, #[trigger] n.symbols[k]) by {
        if k < t.symbols.len() {
            assert(super::sym_sound(t, t.symbols[k]));
        }
    }
}

/// A menu that stands in an earlier one can be added.
pub(crate) proof fn menu_keeps(t: super::Table, p: super::Page)
    requires
        super::well_formed(t),
        super::menu_exists(t, p.parent),
    ensures
        super::well_formed(with_menu(t, p)),
{
    let n = with_menu(t, p);
    assert forall|c: int, m: int| 0 <= c < n.choices.len() && 0 <= m < n.choices[c].members.len() implies super::belongs(
        n,
        #[trigger] n.choices[c].members[m],
        n.choices[c].name,
    ) by {
        assert(super::belongs(t, t.choices[c].members[m], t.choices[c].name));
    }
    assert forall|k: int| 0 <= k < n.symbols.len() implies super::sym_sound(n, #[trigger] n.symbols[k]) by {
        assert(super::sym_sound(t, t.symbols[k]));
    }
    assert forall|k: int| 0 <= k < n.choices.len() implies super::menu_exists(n, (#[trigger] n.choices[k]).menu) by {
        assert(super::menu_exists(t, t.choices[k].menu));
    }
}

proof fn slot_splits(groups: Seq<super::Group>, name: Seq<char>, i: int)
    requires
        0 <= i <= groups.len(),
        forall|k: int| 0 <= k < i ==> text::before((#[trigger] groups[k]).name, name),
    ensures
        i <= slot(groups, name, i) <= groups.len(),
        forall|k: int| 0 <= k < slot(groups, name, i) ==> text::before((#[trigger] groups[k]).name, name),
        slot(groups, name, i) < groups.len() ==> !text::before(groups[slot(groups, name, i)].name, name),
    decreases groups.len() - i,
{
    if i < groups.len() && text::before(groups[i].name, name) {
        slot_splits(groups, name, i + 1);
    }
}

/// The slot for a name lies among the choices or at their end.
pub(crate) proof fn slot_in_range(groups: Seq<super::Group>, name: Seq<char>)
    ensures
        0 <= slot(groups, name, 0) <= groups.len(),
{
    slot_splits(groups, name, 0);
}

/// A choice without members can be added, or take the place of one of the same name.
pub(crate) proof fn choice_keeps(t: super::Table, g: super::Group)
    requires
        super::well_formed(t),
        g.members.len() == 0,
        super::menu_exists(t, g.menu),
    ensures
        super::well_formed(with_choice(t, g)),
        super::group_from(with_choice(t, g).choices, g.name, 0) is Some,
{
    let n = with_choice(t, g);
    let p = slot(t.choices, g.name, 0);
    slot_splits(t.choices, g.name, 0);
    assert(n.choices[p] == g);
    group_found_in_range(n.choices, g.name, 0);
    let replaced = p < t.choices.len() && t.choices[p].name == g.name;
    assert forall|i: int, j: int| 0 <= i < j < n.choices.len() implies text::before(
        #[trigger] n.choices[i].name,
        #[trigger] n.choices[j].name,
    ) by {
        if replaced {
            assert(text::before(t.choices[i].name, t.choices[j].name));
        } else {
            let oi = if i < p {
                i
            } else {
                i - 1
            };
            let oj = if j < p {
                j
            } else {
                j - 1
            };
            if j == p {
                assert(text::before(t.choices[i].name, g.name));
            } else if i == p {
                text::before_is_total(t.choices[p].name, g.name);
                if oj > p {
                    assert(text::before(t.choices[p].name, t.choices[oj].name));
                    text::before_is_transitive(g.name, t.choices[p].name, t.choices[oj].name);
                }
            } else {
                assert(text::before(t.choices[oi].name, t.choices[oj].name));
            }
        }
    }
    assert forall|c: int, m: int| 0 <= c < n.choices.len() && 0 <= m < n.choices[c].members.len() implies super::belongs(
        n,
        #[trigger] n.choices[c].members[m],
        n.choices[c].name,
    ) by {
        let d = if replaced || c < p {
            c
        } else {
            c - 1
        };
        assert(c != p);
        assert(n.choices[c] == t.choices[d]);
        assert(super::belongs(t, t.choices[d].members[m], t.choices[d].name));
    }
    assert forall|k: int| 0 <= k < n.symbols.len() implies super::sym_sound(n, #[trigger] n.symbols[k]) by {
        assert(super::sym_sound(t, t.symbols[k]));
        let s = t.symbols[k];
        if s.choice is Some {
            group_found_in_range(t.choices, s.choice->0, 0);
            let q = super::group_from(t.choices, s.choice->0, 0)->0;
            let r = if replaced || q < p {
                q
            } else {
                q + 1
            };
            assert(n.choices[r].name == s.choice->0);
            group_found_in_range(n.choices, s.choice->0, 0);
        }
    }
    assert forall|k: int| 0 <= k < n.choices.len() implies super::menu_exists(n, (#[trigger] n.choices[k]).menu) by {
        if k != p {
            let d = if replaced || k < p {
                k
            } else {
                k - 1
            };
            assert(n.choices[k] == t.choices[d]);
            assert(super::menu_exists(t, t.choices[d].menu));
        }
    }
}

impl SymbolTable {
    pub(crate) fn set_kind(&mut self, i: usize, kind: Kind)
        requires
            i < old(self).symbols@.len(),
        ensures
            final(self)@ == with_sym(
                old(self)@,
                i as int,
                (super::Sym { kind: kind, ..old(self)@.symbols[i as int] }),
            ),
    {
        self.symbols[i].kind = kind;
        assert(self@.symbols =~= with_sym(old(self)@, i as int, (super::Sym {
            kind: kind,
            ..old(self)@.symbols[i as int]
        })).symbols);
        assert(self@.choices =~= old(self)@.choices);
        assert(self@.menus =~= old(self)@.menus);
    }

    pub(crate) fn set_prompt(&mut self, i: usize, p: String)
        requires
            i < old(self).symbols@.len(),
        ensures
            final(self)@ == with_sym(
                old(self)@,
                i as int,
                (super::Sym { prompt: Some(p@), ..old(self)@.symbols[i as int] }),
            ),
    {
        self.symbols[i].prompt = Some(p);
        assert(self@.symbols =~= with_sym(old(self)@, i as int, (super::Sym {
            prompt: Some(p@),
            ..old(self)@.symbols[i as int]
        })).symbols);
        assert(self@.choices =~= old(self)@.choices);
        assert(self@.menus =~= old(self)@.menus);
    }

    pub(crate) fn set_depends(&mut self, i: usize, e: Expr)
        requires
            i < old(self).symbols@.len(),
        ensures
            final(self)@ == with_sym(
                old(self)@,
                i as int,
                (super::Sym { depends: Some(e@), ..old(self)@.symbols[i as int] }),
            ),
    {
        self.symbols[i].depends = Some(e);
        assert(self@.symbols =~= with_sym(old(self)@, i as int, (super::Sym {
            depends: Some(e@),
            ..old(self)@.symbols[i as int]
        })).symbols);
        assert(self@.choices =~= old(self)@.choices);
        assert(self@.menus =~= old(self)@.menus);
    }

    pub(crate) fn set_help(&mut self, i: usize, h: String)
        requires
            i < old(self).symbols@.len(),
        ensures
            final(self)@ == with_sym(
                old(self)@,
                i as int,
                (super::Sym { help: Some(h@), ..old(self)@.symbols[i as int] }),
            ),
    {
        self.symbols[i].help = Some(h);
        assert(self@.symbols =~= with_sym(old(self)@, i as int, (super::Sym {
            help: Some(h@),
            ..old(self)@.symbols[i as int]
        })).symbols);
        assert(self@.choices =~= old(self)@.choices);
        assert(self@.menus =~= old(self)@.menus);
    }

    pub(crate) fn set_readonly(&mut self, i: usize)
        requires
            i < old(self).symbols@.len(),
        ensures
            final(self)@ == with_sym(
                old(self)@,
                i as int,
                (super::Sym { readonly: true, ..old(self)@.symbols[i as int] }),
            ),
    {
        self.symbols[i].readonly = true;
        assert(self@.symbols =~= with_sym(old(self)@, i as int, (super::Sym {
            readonly: true,
            ..old(self)@.symbols[i as int]
        })).symbols);
        assert(self@.choices =~= old(self)@.choices);
        assert(self@.menus =~= old(self)@.menus);
    }

    pub(crate) fn add_select(&mut self, i: usize, s: Select)
        requires
            i < old(self).symbols@.len(),
        ensures
            final(self)@ == with_sym(
                old(self)@,
                i as int,
                (super::Sym { selects: old(self)@.symbols[i as int].selects.push(s@), ..old(self)@.symbols[i as int] }),
            ),
    {
        self.symbols[i].selects.push(s);
        assert(self.symbols@[i as int]@.selects =~= old(self)@.symbols[i as int].selects.push(s@));
        assert(self@.symbols =~= with_sym(old(self)@, i as int, (super::Sym {
            selects: old(self)@.symbols[i as int].selects.push(s@),
            ..old(self)@.symbols[i as int]
        })).symbols);
        assert(self@.choices =~= old(self)@.choices);
        assert(self@.menus =~= old(self)@.menus);
    }

    pub(crate) fn add_default(&mut self, i: usize, d: super::Default)
        requires
            i < old(self).symbols@.len(),
        ensures
            final(self)@ == with_sym(
                old(self)@,
                i as int,
                (super::Sym { defaults: old(self)@.symbols[i as int].defaults.push(d@), ..old(self)@.symbols[i as int] }),
            ),
    {
        self.symbols[i].defaults.push(d);
        assert(self.symbols@[i as int]@.defaults =~= old(self)@.symbols[i as int].defaults.push(d@));
        assert(self@.symbols =~= with_sym(old(self)@, i as int, (super::Sym {
            defaults: old(self)@.symbols[i as int].defaults.push(d@),
            ..old(self)@.symbols[i as int]
        })).symbols);
        assert(self@.choices =~= old(self)@.choices);
        assert(self@.menus =~= old(self)@.menus);
    }

    pub(crate) fn add_range(&mut self, i: usize, r: Range)
        requires
            i < old(self).symbols@.len(),
        ensures
            final(self)@ == with_sym(
                old(self)@,
                i as int,
                (super::Sym { ranges: old(self)@.symbols[i as int].ranges.push(r@), ..old(self)@.symbols[i as int] }),
            ),
    {
        self.symbols[i].ranges.push(r);
        assert(self.symbols@[i as int]@.ranges =~= old(self)@.symbols[i as int].ranges.push(r@));
        assert(self@.symbols =~= with_sym(old(self)@, i as int, (super::Sym {
            ranges: old(self)@.symbols[i as int].ranges.push(r@),
            ..old(self)@.symbols[i as int]
        })).symbols);
        assert(self@.choices =~= old(self)@.choices);
        assert(self@.menus =~= old(self)@.menus);
    }

    pub(crate) fn set_choice_prompt(&mut self, c: usize, p: String)
        requires
            c < old(self).choices@.len(),
        ensures
            final(self)@ == with_group(
                old(self)@,
                c as int,
                (super::Group { prompt: Some(p@), ..old(self)@.choices[c as int] }),
            ),
    {
        self.choices[c].prompt = Some(p);
        assert(self@.choices =~= with_group(old(self)@, c as int, (super::Group {
            prompt: Some(p@),
            ..old(self)@.choices[c as int]
        })).choices);
        assert(self@.symbols =~= old(self)@.symbols);
        assert(self@.menus =~= old(self)@.menus);
    }

    pub(crate) fn set_choice_depends(&mut self, c: usize, e: Expr)
        requires
            c < old(self).choices@.len(),
        ensures
            final(self)@ == with_group(
                old(self)@,
                c as int,
                (super::Group { depends: Some(e@), ..old(self)@.choices[c as int] }),
            ),
    {
        self.choices[c].depends = Some(e);
        assert(self@.choices =~= with_group(old(self)@, c as int, (super::Group {
            depends: Some(e@),
            ..old(self)@.choices[c as int]
        })).choices);
        assert(self@.symbols =~= old(self)@.symbols);
        assert(self@.menus =~= old(self)@.menus);
    }

    pub(crate) fn add_choice_default(&mut self, c: usize, d: super::Default)
        requires
            c < old(self).choices@.len(),
        ensures
            final(self)@ == with_group(
                old(self)@,
                c as int,
                (super::Group { defaults: old(self)@.choices[c as int].defaults.push(d@), ..old(self)@.choices[c as int] }),
            ),
    {
        self.choices[c].defaults.push(d);
        assert(self.choices@[c as int]@.defaults =~= old(self)@.choices[c as int].defaults.push(d@));
        assert(self@.choices =~= with_group(old(self)@, c as int, (super::Group {
            defaults: old(self)@.choices[c as int].defaults.push(d@),
            ..old(self)@.choices[c as int]
        })).choices);
        assert(self@.symbols =~= old(self)@.symbols);
        assert(self@.menus =~= old(self)@.menus);
    }

    pub(crate) fn add_member(&mut self, c: usize, m: String)
        requires
            c < old(self).choices@.len(),
        ensures
            final(self)@ == with_group(
                old(self)@,
                c as int,
                (super::Group { members: old(self)@.choices[c as int].members.push(m@), ..old(self)@.choices[c as int] }),
            ),
    {
        self.choices[c].members.push(m);
        assert(self.choices@[c as int]@.members =~= old(self)@.choices[c as int].members.push(m@));
        assert(self@.choices =~= with_group(old(self)@, c as int, (super::Group {
            members: old(self)@.choices[c as int].members.push(m@),
            ..old(self)@.choices[c as int]
        })).choices);
        assert(self@.symbols =~= old(self)@.symbols);
        assert(self@.menus =~= old(self)@.menus);
    }

    pub(crate) fn add_symbol(&mut self, s: Symbol)
        ensures
            final(self)@ == with_new_sym(old(self)@, s@),
    {
        self.symbols.push(s);
        assert(self@.symbols =~= old(self)@.symbols.push(s@));
        assert(self@.choices =~= old(self)@.choices);
        assert(self@.menus =~= old(self)@.menus);
    }

    pub(crate) fn add_menu(&mut self, m: Menu)
        ensures
            final(self)@ == with_menu(old(self)@, m@),
    {
        self.menus.push(m);
        assert(self@.menus =~= old(self)@.menus.push(m@));
        assert(self@.choices =~= old(self)@.choices);
        assert(self@.symbols =~= old(self)@.symbols);
    }

    pub(crate) fn put_choice(&mut self, g: Choice)
        ensures
            final(self)@ == with_choice(old(self)@, g@),
    {
        let name = text::chars(g.name.as_str());
        let mut k: usize = 0;
        while k < self.choices.len() && text::comes_before(
            text::chars(self.choices[k].name.as_str()).as_slice(),
            name.as_slice(),
        )
            invariant
                self@ == old(self)@,
                name@ == g@.name,
                k <= self.choices@.len(),
                slot(self@.choices, g@.name, 0) == slot(self@.choices, g@.name, k as int),
            decreases self.choices@.len() - k,
        {
            assert(self@.choices[k as int] == self.choices@[k as int]@);
            k += 1;
        }
        proof {
            if k < self.choices@.len() {
                assert(self@.choices[k as int] == self.choices@[k as int]@);
            }
        }
        if k < self.choices.len() && self.choices[k].name == g.name {
            self.choices.set(k, g);
            assert(self@.choices =~= old(self)@.choices.update(k as int, g@));
        } else {
            self.choices.insert(k, g);
            assert(self@.choices =~= old(self)@.choices.insert(k as int, g@));
        }
        assert(self@.symbols =~= old(self)@.symbols);
        assert(self@.menus =~= old(self)@.menus);
    }
}

} // verus!
