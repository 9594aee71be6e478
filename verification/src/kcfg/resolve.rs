//! Resolving a symbol table plus a set of requested values into a complete,
//! explicit configuration.
//!
//! Nothing is left implicit: every symbol ends up with a value and a recorded reason
//! for it, so `.config` plus a source tree is a reproducible build, and so a conflict
//! can be explained as a chain rather than as "cannot satisfy constraints".

use vstd::prelude::*;
use vstd::string::*;

use super::expr;
use super::expr::{Expr, Tri};
use super::parse;
use super::{Choice, Kind, Range, Symbol, SymbolTable, Val, MODULES};
use crate::text;

verus! {

#[derive(Debug, PartialEq)]
pub enum Reason {
    /// Asked for by the user or a preset.
    Explicit(String),
    /// Forced on by another symbol's `select`.
    SelectedBy(String),
    /// A `default` clause applied.
    Default,
    /// `depends on` was not satisfied, so the symbol is off regardless.
    DependsUnmet(String),
    /// Chosen as the member of a `choice`.
    Chosen(String),
    /// Nothing said anything; the type's zero value.
    Unset,
}

/// A reason over mathematical strings.
pub enum Cause {
    Explicit(Seq<char>),
    SelectedBy(Seq<char>),
    Default,
    DependsUnmet(Seq<char>),
    Chosen(Seq<char>),
    Unset,
}

impl View for Reason {
    type V = Cause;

    open spec fn view(&self) -> Cause {
        match *self {
            Reason::Explicit(s) => Cause::Explicit(s@),
            Reason::SelectedBy(s) => Cause::SelectedBy(s@),
            Reason::Default => Cause::Default,
            Reason::DependsUnmet(s) => Cause::DependsUnmet(s@),
            Reason::Chosen(s) => Cause::Chosen(s@),
            Reason::Unset => Cause::Unset,
        }
    }
}

impl Clone for Reason {
    fn clone(&self) -> (r: Reason)
        ensures
            r@ == self@,
    {
        match self {
            Reason::Explicit(s) => Reason::Explicit(s.clone()),
            Reason::SelectedBy(s) => Reason::SelectedBy(s.clone()),
            Reason::Default => Reason::Default,
            Reason::DependsUnmet(s) => Reason::DependsUnmet(s.clone()),
            Reason::Chosen(s) => Reason::Chosen(s.clone()),
            Reason::Unset => Reason::Unset,
        }
    }
}

/// A reason in words, for the symbol called `sym`.
pub open spec fn described(c: Cause, sym: Seq<char>) -> Seq<char> {
    match c {
        Cause::Explicit(src) => sym + " is set by "@ + src,
        Cause::SelectedBy(by) => sym + " is selected by "@ + by,
        Cause::Default => sym + " takes its default"@,
        Cause::DependsUnmet(d) => sym + " requires `"@ + d + "`, which is not satisfied"@,
        Cause::Chosen(c) => sym + " is the selected member of choice "@ + c,
        Cause::Unset => sym + " is unset"@,
    }
}

impl Reason {
    pub fn describe(&self, sym: &str) -> (r: String)
        ensures
            r@ == described(self@, sym@),
    {
        let mut r = sym.to_owned();
        match self {
            Reason::Explicit(src) => {
                r.append(" is set by ");
                r.append(src.as_str());
            },
            Reason::SelectedBy(by) => {
                r.append(" is selected by ");
                r.append(by.as_str());
            },
            Reason::Default => {
                r.append(" takes its default");
            },
            Reason::DependsUnmet(d) => {
                r.append(" requires `");
                r.append(d.as_str());
                r.append("`, which is not satisfied");
            },
            Reason::Chosen(c) => {
                r.append(" is the selected member of choice ");
                r.append(c.as_str());
            },
            Reason::Unset => {
                r.append(" is unset");
            },
        }
        r
    }
}

#[derive(Debug)]
pub struct ResolveError {
    pub msg: String,
    pub chain: Vec<String>,
    pub hint: Option<String>,
}

/// An error over mathematical strings.
#[verifier::ext_equal]
pub struct Fault {
    pub msg: Seq<char>,
    pub chain: Seq<Seq<char>>,
    pub hint: Option<Seq<char>>,
}

impl View for ResolveError {
    type V = Fault;

    open spec fn view(&self) -> Fault {
        Fault { msg: self.msg@, chain: text::views(self.chain@), hint: super::opt_text(self.hint) }
    }
}

/// What a list of errors says.
pub open spec fn faults(v: Seq<ResolveError>) -> Seq<Fault> {
    Seq::new(v.len(), |i: int| v[i]@)
}

/// `n` times two spaces.
pub open spec fn indent(n: nat) -> Seq<char>
    decreases n,
{
    if n == 0 {
        seq![]
    } else {
        indent((n - 1) as nat) + "  "@
    }
}

/// The first `n` links of a chain, each on its own line and further in than the one before.
pub open spec fn chain_text(chain: Seq<Seq<char>>, n: nat) -> Seq<char>
    decreases n,
{
    if n == 0 {
        seq![]
    } else {
        chain_text(chain, (n - 1) as nat) + indent(n) + chain[n - 1] + "\n"@
    }
}

/// An error as a person reads it.
pub open spec fn fault_text(f: Fault) -> Seq<char> {
    let body = f.msg + "\n"@ + chain_text(f.chain, f.chain.len());
    match f.hint {
        Some(h) => body + "  "@ + h,
        None => body,
    }
}

impl ResolveError {
    /// The error as a person reads it.
    pub fn to_text(&self) -> (r: String)
        ensures
            r@ == fault_text(self@),
    {
        let mut r = self.msg.clone();
        r.append("\n");
        let ghost lead = r@;
        let mut pad = String::new();
        let mut i: usize = 0;
        assert(lead + seq![] =~= lead);
        while i < self.chain.len()
            invariant
                i <= self.chain@.len(),
                pad@ == indent(i as nat),
                r@ == lead + chain_text(self@.chain, i as nat),
            decreases self.chain@.len() - i,
        {
            pad.append("  ");
            r.append(pad.as_str());
            r.append(self.chain[i].as_str());
            r.append("\n");
            assert(r@ =~= lead + chain_text(self@.chain, (i + 1) as nat));
            i += 1;
        }
        match &self.hint {
            Some(h) => {
                r.append("  ");
                r.append(h.as_str());
            },
            None => {},
        }
        r
    }
}

/// One symbol's place in a resolution.
#[derive(Debug)]
pub struct Entry {
    pub name: String,
    pub value: Val,
    pub reason: Reason,
}

/// A complete configuration: every symbol with its value and why it has it, in the order
/// the symbols were declared.
#[derive(Debug)]
pub struct Resolution {
    pub entries: Vec<Entry>,
}

/// A configuration over mathematical values: names, values and reasons, place by place.
#[verifier::ext_equal]
pub struct Outcome {
    pub names: Seq<Seq<char>>,
    pub vals: Seq<super::Value>,
    pub causes: Seq<Cause>,
}

impl View for Resolution {
    type V = Outcome;

    open spec fn view(&self) -> Outcome {
        Outcome {
            names: Seq::new(self.entries@.len(), |i: int| self.entries@[i].name@),
            vals: Seq::new(self.entries@.len(), |i: int| self.entries@[i].value@),
            causes: Seq::new(self.entries@.len(), |i: int| self.entries@[i].reason@),
        }
    }
}

/// Where `name` stands among `names` from `i` on, if it does.
pub open spec fn found(names: Seq<Seq<char>>, name: Seq<char>, i: int) -> Option<int>
    decreases names.len() - i,
{
    if i < 0 || i >= names.len() {
        None
    } else if names[i] == name {
        Some(i)
    } else {
        found(names, name, i + 1)
    }
}

/// What the symbol called `name` is worth; one that is not there is off.
pub open spec fn tri_in(names: Seq<Seq<char>>, vals: Seq<super::Value>, name: Seq<char>) -> Tri {
    match found(names, name, 0) {
        Some(i) => super::truth(vals[i]),
        None => Tri::N,
    }
}

/// The literal form of the symbol called `name`; one that is not there is empty.
pub open spec fn lit_in(names: Seq<Seq<char>>, vals: Seq<super::Value>, name: Seq<char>) -> Seq<char> {
    match found(names, name, 0) {
        Some(i) => super::literal(vals[i]),
        None => seq![],
    }
}

/// The reading of symbols that a configuration gives.
pub open spec fn tri_reading(names: Seq<Seq<char>>, vals: Seq<super::Value>) -> spec_fn(Seq<char>) -> Tri {
    |n: Seq<char>| tri_in(names, vals, n)
}

/// The reading of literals that a configuration gives.
pub open spec fn lit_reading(names: Seq<Seq<char>>, vals: Seq<super::Value>) -> spec_fn(Seq<char>) -> Seq<char> {
    |n: Seq<char>| lit_in(names, vals, n)
}

/// What a condition is worth in a configuration.
pub open spec fn eval_in(names: Seq<Seq<char>>, vals: Seq<super::Value>, c: expr::Cond) -> Tri {
    expr::worth(c, tri_reading(names, vals), lit_reading(names, vals))
}

/// Whether an optional condition holds: none always does.
pub open spec fn holds(names: Seq<Seq<char>>, vals: Seq<super::Value>, c: Option<expr::Cond>) -> bool {
    match c {
        Some(e) => eval_in(names, vals, e) != Tri::N,
        None => true,
    }
}

impl Resolution {
    /// A configuration of no symbols.
    pub fn new() -> (r: Resolution)
        ensures
            r@ == (Outcome { names: seq![], vals: seq![], causes: seq![] }),
            r.entries@.len() == 0,
    {
        let r = Resolution { entries: Vec::new() };
        assert(r@ =~= (Outcome { names: seq![], vals: seq![], causes: seq![] }));
        r
    }

    /// Where the symbol called `name` stands.
    pub fn index_of(&self, name: &str) -> (r: Option<usize>)
        ensures
            super::opt_index(r) == found(self@.names, name@, 0),
            r is Some ==> r->0 < self.entries@.len(),
    {
        let wanted = name.to_owned();
        let mut i: usize = 0;
        while i < self.entries.len()
            invariant
                i <= self.entries@.len(),
                wanted@ == name@,
                found(self@.names, name@, 0) == found(self@.names, name@, i as int),
            decreases self.entries@.len() - i,
        {
            if self.entries[i].name == wanted {
                return Some(i);
            }
            i += 1;
        }
        None
    }

    /// Give the symbol called `name` a value, adding it if it is not there.
    pub fn set(&mut self, name: &str, value: Val, reason: Reason)
        ensures
            match found(old(self)@.names, name@, 0) {
                Some(i) => final(self)@ == (Outcome {
                    names: old(self)@.names,
                    vals: old(self)@.vals.update(i, value@),
                    causes: old(self)@.causes.update(i, reason@),
                }),
                None => final(self)@ == (Outcome {
                    names: old(self)@.names.push(name@),
                    vals: old(self)@.vals.push(value@),
                    causes: old(self)@.causes.push(reason@),
                }),
            },
    {
        match self.index_of(name) {
            Some(i) => self.assign(i, value, reason),
            None => {
                self.entries.push(Entry { name: name.to_owned(), value, reason });
                assert(self@.names =~= old(self)@.names.push(name@));
                assert(self@.vals =~= old(self)@.vals.push(value@));
                assert(self@.causes =~= old(self)@.causes.push(reason@));
            },
        }
    }

    fn assign(&mut self, i: usize, value: Val, reason: Reason)
        requires
            i < old(self).entries@.len(),
        ensures
            final(self)@ == (Outcome {
                names: old(self)@.names,
                vals: old(self)@.vals.update(i as int, value@),
                causes: old(self)@.causes.update(i as int, reason@),
            }),
            final(self).entries@.len() == old(self).entries@.len(),
    {
        let name = self.entries[i].name.clone();
        self.entries.set(i, Entry { name, value, reason });
        assert(self@.names =~= old(self)@.names);
        assert(self@.vals =~= old(self)@.vals.update(i as int, value@));
        assert(self@.causes =~= old(self)@.causes.update(i as int, reason@));
    }

    /// The value of the symbol called `name`.
    pub fn value(&self, name: &str) -> (r: Option<&Val>)
        ensures
            match r {
                Some(v) => found(self@.names, name@, 0) is Some && v@ == self@.vals[found(self@.names, name@, 0)->0],
                None => found(self@.names, name@, 0) is None,
            },
    {
        match self.index_of(name) {
            Some(i) => Some(&self.entries[i].value),
            None => None,
        }
    }

    /// Why the symbol called `name` has its value.
    pub fn reason(&self, name: &str) -> (r: Option<&Reason>)
        ensures
            match r {
                Some(v) => found(self@.names, name@, 0) is Some && v@ == self@.causes[found(
                    self@.names,
                    name@,
                    0,
                )->0],
                None => found(self@.names, name@, 0) is None,
            },
    {
        match self.index_of(name) {
            Some(i) => Some(&self.entries[i].reason),
            None => None,
        }
    }

    pub fn tri(&self, name: &str) -> (r: Tri)
        ensures
            r == tri_in(self@.names, self@.vals, name@),
    {
        match self.value(name) {
            Some(v) => v.as_tri(),
            None => Tri::N,
        }
    }

    /// Whether another configuration gives the same symbols the same values.
    pub fn same_values(&self, other: &Resolution) -> (r: bool)
        ensures
            r == (self@.names == other@.names && self@.vals == other@.vals),
    {
        if self.entries.len() != other.entries.len() {
            assert(self@.names.len() != other@.names.len());
            return false;
        }
        let mut i: usize = 0;
        while i < self.entries.len()
            invariant
                i <= self.entries@.len(),
                self.entries@.len() == other.entries@.len(),
                forall|k: int| 0 <= k < i ==> #[trigger] self@.names[k] == other@.names[k],
                forall|k: int| 0 <= k < i ==> #[trigger] self@.vals[k] == other@.vals[k],
            decreases self.entries@.len() - i,
        {
            if !crate::text::same(self.entries[i].name.as_str(), other.entries[i].name.as_str()) {
                assert(self@.names[i as int] != other@.names[i as int]);
                return false;
            }
            if !self.entries[i].value.same(&other.entries[i].value) {
                assert(self@.vals[i as int] != other@.vals[i as int]);
                return false;
            }
            i += 1;
        }
        assert(self@.names =~= other@.names);
        assert(self@.vals =~= other@.vals);
        true
    }

    pub fn is_on(&self, name: &str) -> (r: bool)
        ensures
            r == (tri_in(self@.names, self@.vals, name@) != Tri::N),
    {
        self.tri(name) != Tri::N
    }

    /// The number an `int` symbol holds, or 0.
    pub fn int_value(&self, name: &str) -> (r: i64)
        ensures
            r == int_in(self@, name@),
    {
        match self.value(name) {
            Some(Val::Int(i)) => *i,
            _ => 0,
        }
    }

    /// The text a `string` symbol holds, or none.
    pub fn str(&self, name: &str) -> (r: &str)
        ensures
            r@ == str_in(self@, name@),
    {
        match self.value(name) {
            Some(Val::Str(s)) => s.as_str(),
            _ => {
                proof {
                    reveal_strlit("");
                    assert(""@ =~= seq![]);
                }
                ""
            },
        }
    }

    /// The literal form used for `=` comparisons in expressions.
    fn literal(&self, name: &str) -> (r: String)
        ensures
            r@ == lit_in(self@.names, self@.vals, name@),
    {
        match self.value(name) {
            Some(v) => v.literal(),
            None => String::new(),
        }
    }
}

/// The number the symbol called `name` holds, or 0.
pub open spec fn int_in(o: Outcome, name: Seq<char>) -> int {
    match found(o.names, name, 0) {
        Some(i) => match o.vals[i] {
            super::Value::Int(v) => v,
            _ => 0,
        },
        None => 0,
    }
}

/// The text the symbol called `name` holds, or none.
pub open spec fn str_in(o: Outcome, name: Seq<char>) -> Seq<char> {
    match found(o.names, name, 0) {
        Some(i) => match o.vals[i] {
            super::Value::Str(s) => s,
            _ => seq![],
        },
        None => seq![],
    }
}

/// A requested value: `SMP=y`, `NR_CPUS=8`, together with where it came from.
#[derive(Debug, PartialEq)]
pub struct Request {
    pub symbol: String,
    pub text: String,
    pub source: String,
}

/// A request over mathematical strings.
pub struct Ask {
    pub symbol: Seq<char>,
    pub text: Seq<char>,
    pub source: Seq<char>,
}

impl View for Request {
    type V = Ask;

    open spec fn view(&self) -> Ask {
        Ask { symbol: self.symbol@, text: self.text@, source: self.source@ }
    }
}

impl Clone for Request {
    fn clone(&self) -> (r: Request)
        ensures
            r@ == self@,
    {
        Request { symbol: self.symbol.clone(), text: self.text.clone(), source: self.source.clone() }
    }
}

/// What a list of requests asks.
pub open spec fn asks(v: Seq<Request>) -> Seq<Ask> {
    Seq::new(v.len(), |i: int| v[i]@)
}

/// What a condition is worth in a configuration.
pub fn eval(e: &Expr, res: &Resolution) -> (r: Tri)
    ensures
        r == eval_in(res@.names, res@.vals, e@),
{
    let tri = |n: &str| -> (t: Tri)
        ensures
            t == tri_in(res@.names, res@.vals, n@),
        { res.tri(n) };
    let lit = |n: &str| -> (t: String)
        ensures
            t@ == lit_in(res@.names, res@.vals, n@),
        { res.literal(n) };
    assert(expr::answers_tri(tri, tri_reading(res@.names, res@.vals)));
    assert(expr::answers_text(lit, lit_reading(res@.names, res@.vals)));
    e.eval(&tri, &lit)
}

fn condition_holds(c: &Option<Expr>, res: &Resolution) -> (r: bool)
    ensures
        r == holds(res@.names, res@.vals, super::opt_cond(*c)),
{
    match c {
        Some(e) => eval(e, res) != Tri::N,
        None => true,
    }
}

// ---- requests ----

/// The number of single-character edits between the first `i` characters of `a` and the
/// first `j` of `b`.
pub open spec fn edits(a: Seq<char>, b: Seq<char>, i: nat, j: nat) -> int
    decreases i + j,
{
    if i == 0 {
        j as int
    } else if j == 0 {
        i as int
    } else {
        let drop = edits(a, b, (i - 1) as nat, j) + 1;
        let insert = edits(a, b, i, (j - 1) as nat) + 1;
        let swap = edits(a, b, (i - 1) as nat, (j - 1) as nat) + if a[i - 1] == b[j - 1] {
            0int
        } else {
            1int
        };
        least(least(drop, insert), swap)
    }
}

/// The smaller of two numbers.
pub open spec fn least(x: int, y: int) -> int {
    if x <= y {
        x
    } else {
        y
    }
}

proof fn edits_bound(a: Seq<char>, b: Seq<char>, i: nat, j: nat)
    ensures
        0 <= edits(a, b, i, j) <= i + j,
    decreases i + j,
{
    if i > 0 && j > 0 {
        edits_bound(a, b, (i - 1) as nat, j);
        edits_bound(a, b, i, (j - 1) as nat);
        edits_bound(a, b, (i - 1) as nat, (j - 1) as nat);
    }
}

/// Two names are no edits apart exactly when they are the same, as far as they are compared.
pub proof fn same_names_need_no_edits(a: Seq<char>, b: Seq<char>, i: nat, j: nat)
    requires
        i <= a.len(),
        j <= b.len(),
    ensures
        edits(a, b, i, j) == 0 <==> a.subrange(0, i as int) == b.subrange(0, j as int),
    decreases i + j,
{
    let (p, q) = (a.subrange(0, i as int), b.subrange(0, j as int));
    if i == 0 || j == 0 {
        assert(p.len() == i && q.len() == j);
        if i == j {
            assert(p =~= q);
        }
    } else {
        same_names_need_no_edits(a, b, (i - 1) as nat, (j - 1) as nat);
        edits_bound(a, b, (i - 1) as nat, j);
        edits_bound(a, b, i, (j - 1) as nat);
        edits_bound(a, b, (i - 1) as nat, (j - 1) as nat);
        assert(p.drop_last() =~= a.subrange(0, i - 1));
        assert(q.drop_last() =~= b.subrange(0, j - 1));
        assert(p =~= p.drop_last().push(a[i - 1]));
        assert(q =~= q.drop_last().push(b[j - 1]));
        if p == q {
            assert(p.last() == q.last());
        }
    }
}

/// The edit distance between two names.
fn distance(x: &str, y: &str) -> (r: u128)
    ensures
        r == edits(x@, y@, x@.len(), y@.len()),
{
    let a = text::chars(x);
    let b = text::chars(y);
    let mut prev: Vec<u128> = Vec::new();
    prev.push(0);
    let mut j: usize = 0;
    while j < b.len()
        invariant
            j <= b@.len(),
            prev@.len() == j + 1,
            forall|k: int| 0 <= k <= j ==> #[trigger] prev@[k] == edits(a@, b@, 0, k as nat),
        decreases b@.len() - j,
    {
        prev.push(j as u128 + 1);
        j += 1;
    }
    let mut i: usize = 0;
    while i < a.len()
        invariant
            i <= a@.len(),
            prev@.len() == b@.len() + 1,
            forall|k: int| 0 <= k <= b@.len() ==> #[trigger] prev@[k] == edits(a@, b@, i as nat, k as nat),
        decreases a@.len() - i,
    {
        let mut cur: Vec<u128> = Vec::new();
        cur.push(i as u128 + 1);
        let mut j: usize = 0;
        while j < b.len()
            invariant
                i < a@.len(),
                j <= b@.len(),
                prev@.len() == b@.len() + 1,
                cur@.len() == j + 1,
                forall|k: int| 0 <= k <= b@.len() ==> #[trigger] prev@[k] == edits(a@, b@, i as nat, k as nat),
                forall|k: int| 0 <= k <= j ==> #[trigger] cur@[k] == edits(a@, b@, (i + 1) as nat, k as nat),
            decreases b@.len() - j,
        {
            let ghost lengths = (a.len(), b.len());
            proof {
                edits_bound(a@, b@, i as nat, (j + 1) as nat);
                edits_bound(a@, b@, (i + 1) as nat, j as nat);
                edits_bound(a@, b@, i as nat, j as nat);
                assert(prev@[j + 1] == edits(a@, b@, i as nat, (j + 1) as nat));
                assert(cur@[j as int] == edits(a@, b@, (i + 1) as nat, j as nat));
                assert(prev@[j as int] == edits(a@, b@, i as nat, j as nat));
            }
            let cost: u128 = if a[i] != b[j] {
                1
            } else {
                0
            };
            let drop: u128 = prev[j + 1] + 1;
            let insert: u128 = cur[j] + 1;
            let swap: u128 = prev[j] + cost;
            let two: u128 = if drop <= insert {
                drop
            } else {
                insert
            };
            let best: u128 = if two <= swap {
                two
            } else {
                swap
            };
            cur.push(best);
            assert(best == edits(a@, b@, (i + 1) as nat, (j + 1) as nat));
            j += 1;
        }
        prev = cur;
        i += 1;
    }
    assert(prev@[b@.len() as int] == edits(a@, b@, i as nat, (b@.len() as int) as nat));
    prev[b.len()]
}

/// The nearest of the first `k` names to `name` that is at most three edits away, with its
/// distance; of two equally near, the one that comes first in the order of names.
pub open spec fn nearest_of(names: Seq<Seq<char>>, name: Seq<char>, k: nat) -> Option<(int, Seq<char>)>
    decreases k,
{
    if k == 0 {
        None
    } else {
        let best = nearest_of(names, name, (k - 1) as nat);
        let cand = names[k - 1];
        let d = edits(name, cand, name.len(), cand.len());
        if d <= 3 && match best {
            Some((bd, bn)) => d < bd || (d == bd && text::before(cand, bn)),
            None => true,
        } {
            Some((d, cand))
        } else {
            best
        }
    }
}

/// The suggestion for a misspelled symbol.
pub open spec fn suggestion(t: super::Table, name: Seq<char>) -> Option<Seq<char>> {
    match nearest_of(names_of(t), name, t.symbols.len()) {
        Some((_, n)) => Some("did you mean `"@ + n + "`?"@),
        None => None,
    }
}

/// The names of a table's symbols, in declaration order.
pub open spec fn names_of(t: super::Table) -> Seq<Seq<char>> {
    Seq::new(t.symbols.len(), |i: int| t.symbols[i].name)
}

/// Cheap edit-distance suggestion for a misspelled symbol.
fn nearest(table: &SymbolTable, name: &str) -> (r: Option<String>)
    ensures
        super::opt_text(r) == suggestion(table@, name@),
{
    let ghost names = names_of(table@);
    let mut best: Option<(u128, String)> = None;
    let mut i: usize = 0;
    while i < table.symbols.len()
        invariant
            i <= table.symbols@.len(),
            names == names_of(table@),
            match best {
                Some((d, n)) => nearest_of(names, name@, i as nat) == Some((d as int, n@)),
                None => nearest_of(names, name@, i as nat) is None,
            },
        decreases table.symbols@.len() - i,
    {
        assert(table@.symbols[i as int] == table.symbols@[i as int]@);
        assert(names[i as int] == table.symbols@[i as int].name@);
        let cand = &table.symbols[i].name;
        let d: u128 = distance(name, cand.as_str());
        if d <= 3 {
            let nearer = match &best {
                None => true,
                Some((bd, bn)) => d < *bd || (d == *bd && text::comes_before(
                    text::chars(cand.as_str()).as_slice(),
                    text::chars(bn.as_str()).as_slice(),
                )),
            };
            if nearer {
                best = Some((d, cand.clone()));
            }
        }
        i += 1;
    }
    match best {
        Some((_, n)) => {
            let mut h = "did you mean `".to_owned();
            h.append(n.as_str());
            h.append("`?");
            Some(h)
        },
        None => None,
    }
}

/// What is wrong with a request, if anything is.
pub open spec fn ask_fault(t: super::Table, a: Ask) -> Option<Fault> {
    match super::sym_from(t.symbols, a.symbol, 0) {
        None => Some(
            Fault {
                msg: "unknown configuration symbol `"@ + a.symbol + "`"@,
                chain: seq!["requested by "@ + a.source],
                hint: suggestion(t, a.symbol),
            },
        ),
        Some(i) => {
            let s = t.symbols[i];
            if s.readonly {
                Some(
                    Fault {
                        msg: "`"@ + a.symbol + "` is not user-settable"@,
                        chain: seq![
                            "declared readonly at "@ + super::place_text(s.origin),
                            "it describes what the hardware can do, not what to build"@,
                        ],
                        hint: Some("set the architecture instead"@),
                    },
                )
            } else {
                match parse::value_of(a.text, s.kind) {
                    Ok(_) => None,
                    Err(m) => Some(
                        Fault {
                            msg: "bad value for `"@ + a.symbol + "`: "@ + m,
                            chain: seq![
                                "`"@ + a.symbol + "` is "@ + super::kind_name(s.kind) + " ("@ + super::place_text(
                                    s.origin,
                                ) + ")"@,
                            ],
                            hint: None,
                        },
                    ),
                }
            }
        },
    }
}

/// What is wrong with the first `k` requests.
pub open spec fn ask_faults(t: super::Table, asked: Seq<Ask>, k: nat) -> Seq<Fault>
    decreases k,
{
    if k == 0 {
        seq![]
    } else {
        match ask_fault(t, asked[k - 1]) {
            Some(f) => ask_faults(t, asked, (k - 1) as nat).push(f),
            None => ask_faults(t, asked, (k - 1) as nat),
        }
    }
}

/// What a symbol was asked to be, and by whom.
pub struct Wish {
    pub value: super::Value,
    pub source: Seq<char>,
}

/// What the first `k` requests ask of `s`: the last one that names it has the say.
pub open spec fn wish(s: super::Sym, asked: Seq<Ask>, k: nat) -> Option<Wish>
    decreases k,
{
    if k == 0 {
        None
    } else if asked[k - 1].symbol == s.name {
        Some(Wish { value: parse::value_of(asked[k - 1].text, s.kind)->Ok_0, source: asked[k - 1].source })
    } else {
        wish(s, asked, (k - 1) as nat)
    }
}

/// What the first `k` requests ask of every symbol.
pub open spec fn wishes(t: super::Table, asked: Seq<Ask>, k: nat) -> Seq<Option<Wish>> {
    Seq::new(t.symbols.len(), |i: int| wish(t.symbols[i], asked, k))
}

struct Want {
    value: Val,
    source: String,
}

spec fn want_view(w: Option<Want>) -> Option<Wish> {
    match w {
        Some(x) => Some(Wish { value: x.value@, source: x.source@ }),
        None => None,
    }
}

spec fn want_views(w: Seq<Option<Want>>) -> Seq<Option<Wish>> {
    Seq::new(w.len(), |i: int| want_view(w[i]))
}

fn text3(a: &str, b: &str, c: &str) -> (r: String)
    ensures
        r@ == a@ + b@ + c@,
{
    let mut r = a.to_owned();
    r.append(b);
    r.append(c);
    r
}

fn text2(a: &str, b: &str) -> (r: String)
    ensures
        r@ == a@ + b@,
{
    let mut r = a.to_owned();
    r.append(b);
    r
}

fn one_link(a: String) -> (r: Vec<String>)
    ensures
        text::views(r@) == seq![a@],
{
    let mut r: Vec<String> = Vec::new();
    r.push(a);
    assert(text::views(r@) =~= seq![a@]);
    r
}

fn two_links(a: String, b: String) -> (r: Vec<String>)
    ensures
        text::views(r@) == seq![a@, b@],
{
    let mut r: Vec<String> = Vec::new();
    r.push(a);
    r.push(b);
    assert(text::views(r@) =~= seq![a@, b@]);
    r
}

/// The errors of one request, or the value it asks for and the symbol it asks it of.
fn check_request(table: &SymbolTable, r: &Request) -> (out: Result<(usize, Val), ResolveError>)
    ensures
        match out {
            Ok((i, v)) => ask_fault(table@, r@) is None && super::sym_from(table@.symbols, r.symbol@, 0) == Some(
                i as int,
            ) && i < table.symbols@.len() && parse::value_of(r.text@, table@.symbols[i as int].kind) == Ok::<
                super::Value,
                Seq<char>,
            >(v@),
            Err(e) => ask_fault(table@, r@) == Some(e@),
        },
{
    let i: usize = match table.index_of(r.symbol.as_str()) {
        Some(i) => i,
        None => {
            let e = ResolveError {
                msg: text3("unknown configuration symbol `", r.symbol.as_str(), "`"),
                chain: one_link(text2("requested by ", r.source.as_str())),
                hint: nearest(table, r.symbol.as_str()),
            };
            return Err(e);
        },
    };
    assert(table@.symbols[i as int] == table.symbols@[i as int]@);
    let sym = &table.symbols[i];
    if sym.readonly {
        let e = ResolveError {
            msg: text3("`", r.symbol.as_str(), "` is not user-settable"),
            chain: two_links(
                text2("declared readonly at ", sym.origin.to_text().as_str()),
                "it describes what the hardware can do, not what to build".to_owned(),
            ),
            hint: Some("set the architecture instead".to_owned()),
        };
        return Err(e);
    }
    match parse::parse_val_pub(r.text.as_str(), sym.kind) {
        Ok(v) => Ok((i, v)),
        Err(m) => {
            let mut link = text3("`", r.symbol.as_str(), "` is ");
            link.append(sym.kind.name());
            link.append(" (");
            link.append(sym.origin.to_text().as_str());
            link.append(")");
            let mut msg = text3("bad value for `", r.symbol.as_str(), "`: ");
            msg.append(m.as_str());
            let e = ResolveError { msg, chain: one_link(link), hint: None };
            Err(e)
        },
    }
}

proof fn unique_name(t: super::Table, name: Seq<char>, i: int, j: int)
    requires
        super::well_formed(t),
        super::sym_from(t.symbols, name, j) == Some(i),
        0 <= j,
    ensures
        j <= i < t.symbols.len(),
        t.symbols[i].name == name,
        forall|k: int| 0 <= k < t.symbols.len() && k != i ==> (#[trigger] t.symbols[k]).name != name,
    decreases t.symbols.len() - j,
{
    if t.symbols[j].name != name {
        unique_name(t, name, i, j + 1);
    }
    assert forall|k: int| 0 <= k < t.symbols.len() && k != i implies (#[trigger] t.symbols[k]).name != name by {
        if k < i {
            assert(t.symbols[k].name != t.symbols[i].name);
        } else {
            assert(t.symbols[i].name != t.symbols[k].name);
        }
    }
}

/// Validate and type the requests.
fn check_requests(table: &SymbolTable, requests: &[Request]) -> (out: Result<Vec<Option<Want>>, Vec<ResolveError>>)
    requires
        super::well_formed(table@),
    ensures
        match out {
            Ok(w) => ask_faults(table@, asks(requests@), requests@.len()) =~= seq![] && want_views(w@) == wishes(
                table@,
                asks(requests@),
                requests@.len(),
            ),
            Err(e) => ask_faults(table@, asks(requests@), requests@.len()) == faults(e@) && e@.len() > 0,
        },
{
    let ghost t = table@;
    let ghost asked = asks(requests@);
    let mut wants: Vec<Option<Want>> = Vec::new();
    let mut i: usize = 0;
    while i < table.symbols.len()
        invariant
            i <= table.symbols@.len(),
            wants@.len() == i,
            forall|k: int| 0 <= k < i ==> (#[trigger] wants@[k]) is None,
        decreases table.symbols@.len() - i,
    {
        wants.push(None);
        i += 1;
    }
    assert(want_views(wants@) =~= wishes(t, asked, 0));
    let mut errors: Vec<ResolveError> = Vec::new();
    assert(faults(errors@) =~= seq![]);
    let mut k: usize = 0;
    while k < requests.len()
        invariant
            k <= requests@.len(),
            t == table@,
            asked == asks(requests@),
            super::well_formed(t),
            wants@.len() == table.symbols@.len(),
            faults(errors@) == ask_faults(t, asked, k as nat),
            errors@.len() == 0 ==> want_views(wants@) == wishes(t, asked, k as nat),
        decreases requests@.len() - k,
    {
        assert(asked[k as int] == requests@[k as int]@);
        let ghost before = want_views(wants@);
        let ghost fs = faults(errors@);
        match check_request(table, &requests[k]) {
            Ok((i, v)) => {
                proof {
                    unique_name(t, requests@[k as int].symbol@, i as int, 0);
                }
                wants.set(i, Some(Want { value: v, source: requests[k].source.clone() }));
                proof {
                    if errors@.len() == 0 {
                        let next = wishes(t, asked, (k + 1) as nat);
                        assert forall|j: int| 0 <= j < next.len() implies want_views(wants@)[j] == next[j] by {
                            if j == i {
                                assert(t.symbols[j].name == asked[k as int].symbol);
                            } else {
                                assert(t.symbols[j].name != asked[k as int].symbol);
                                assert(before[j] == wishes(t, asked, k as nat)[j]);
                            }
                        }
                        assert(want_views(wants@) =~= wishes(t, asked, (k + 1) as nat));
                    }
                }
            },
            Err(e) => {
                let ghost f = e@;
                errors.push(e);
                assert(faults(errors@) =~= fs.push(f));
            },
        }
        k += 1;
    }
    if errors.len() > 0 {
        return Err(errors);
    }
    assert(ask_faults(t, asked, k as nat) == faults(errors@));
    Ok(wants)
}

// ---- the fixed point ----

/// `o` with the symbol at `i` given a value and the reason for it.
pub open spec fn put(o: Outcome, i: int, v: super::Value, c: Cause) -> Outcome {
    Outcome { names: o.names, vals: o.vals.update(i, v), causes: o.causes.update(i, c) }
}

/// Whether an active `select` of `s` names `target`.
pub open spec fn pulls_now(s: super::Sym, names: Seq<Seq<char>>, vals: Seq<super::Value>, target: Seq<char>) -> bool {
    exists|j: int|
        0 <= j < s.selects.len() && (#[trigger] s.selects[j]).target == target && holds(names, vals, s.selects[j].cond)
}

/// The first symbol from `i` on that is on and selects `target`.
pub open spec fn selector(
    t: super::Table,
    names: Seq<Seq<char>>,
    vals: Seq<super::Value>,
    target: Seq<char>,
    i: int,
) -> Option<Seq<char>>
    decreases t.symbols.len() - i,
{
    if i < 0 || i >= t.symbols.len() {
        None
    } else if super::truth(vals[i]) != Tri::N && pulls_now(t.symbols[i], names, vals, target) {
        Some(t.symbols[i].name)
    } else {
        selector(t, names, vals, target, i + 1)
    }
}

/// Which symbol forces each symbol on, place by place.
pub open spec fn selectors(t: super::Table, names: Seq<Seq<char>>, vals: Seq<super::Value>) -> Seq<
    Option<Seq<char>>,
> {
    Seq::new(t.symbols.len(), |i: int| selector(t, names, vals, t.symbols[i].name, 0))
}

/// The first default from `j` on whose condition holds.
pub open spec fn first_default(d: Seq<super::Fallback>, o: Outcome, j: int) -> Option<super::Value>
    decreases d.len() - j,
{
    if j < 0 || j >= d.len() {
        None
    } else if holds(o.names, o.vals, d[j].cond) {
        Some(d[j].value)
    } else {
        first_default(d, o, j + 1)
    }
}

/// What the symbol at `i` becomes, or nothing where a choice decides that.
pub open spec fn next_for(
    t: super::Table,
    w: Seq<Option<Wish>>,
    sel: Seq<Option<Seq<char>>>,
    o: Outcome,
    i: int,
) -> Option<(super::Value, Cause)> {
    let s = t.symbols[i];
    if !holds(o.names, o.vals, s.depends) {
        Some((super::zero(s.kind), Cause::DependsUnmet(expr::shown(s.depends->0))))
    } else if s.choice is Some {
        None
    } else if w[i] is Some {
        Some((w[i]->0.value, Cause::Explicit(w[i]->0.source)))
    } else if sel[i] is Some {
        Some((super::Value::Tri(Tri::Y), Cause::SelectedBy(sel[i]->0)))
    } else {
        match first_default(s.defaults, o, 0) {
            Some(v) => Some((v, Cause::Default)),
            None => Some((super::zero(s.kind), Cause::Unset)),
        }
    }
}

/// `o` after the symbols from `i` on have been decided, one after the other.
pub open spec fn after_symbols(
    t: super::Table,
    w: Seq<Option<Wish>>,
    sel: Seq<Option<Seq<char>>>,
    o: Outcome,
    i: int,
) -> Outcome
    decreases t.symbols.len() - i,
{
    if i < 0 || i >= t.symbols.len() {
        o
    } else {
        match next_for(t, w, sel, o, i) {
            Some((v, c)) => after_symbols(t, w, sel, put(o, i, v, c), i + 1),
            None => after_symbols(t, w, sel, o, i + 1),
        }
    }
}

/// Where the symbol called `name` stands.
pub open spec fn place_of(t: super::Table, name: Seq<char>) -> int {
    super::sym_from(t.symbols, name, 0)->0
}

/// Those of the first `k` members whose dependencies are met.
pub open spec fn usable(t: super::Table, o: Outcome, members: Seq<Seq<char>>, k: nat) -> Seq<Seq<char>>
    decreases k,
{
    if k == 0 {
        seq![]
    } else {
        let before = usable(t, o, members, (k - 1) as nat);
        if holds(o.names, o.vals, t.symbols[place_of(t, members[k - 1])].depends) {
            before.push(members[k - 1])
        } else {
            before
        }
    }
}

/// Whether the symbol called `name` was asked to be on.
pub open spec fn asked_on(t: super::Table, w: Seq<Option<Wish>>, name: Seq<char>) -> bool {
    let i = place_of(t, name);
    w[i] is Some && w[i]->0.value == super::Value::Tri(Tri::Y)
}

/// The first of `us` from `i` on that was asked to be on.
pub open spec fn first_asked(t: super::Table, w: Seq<Option<Wish>>, us: Seq<Seq<char>>, i: int) -> Option<Seq<char>>
    decreases us.len() - i,
{
    if i < 0 || i >= us.len() {
        None
    } else if asked_on(t, w, us[i]) {
        Some(us[i])
    } else {
        first_asked(t, w, us, i + 1)
    }
}

/// The first default from `j` on whose condition holds and that names one of `us`.
pub open spec fn first_offered(d: Seq<super::Fallback>, us: Seq<Seq<char>>, o: Outcome, j: int) -> Option<Seq<char>>
    decreases d.len() - j,
{
    if j < 0 || j >= d.len() {
        None
    } else if holds(o.names, o.vals, d[j].cond) && d[j].value is Str && us.contains(d[j].value->Str_0) {
        Some(d[j].value->Str_0)
    } else {
        first_offered(d, us, o, j + 1)
    }
}

/// The member of a choice that is on: the one asked for, else the one a default names,
/// else the first that can be.
pub open spec fn picked(t: super::Table, w: Seq<Option<Wish>>, o: Outcome, g: super::Group) -> Option<Seq<char>> {
    let us = usable(t, o, g.members, g.members.len());
    if !holds(o.names, o.vals, g.depends) {
        None
    } else if first_asked(t, w, us, 0) is Some {
        first_asked(t, w, us, 0)
    } else if first_offered(g.defaults, us, o, 0) is Some {
        first_offered(g.defaults, us, o, 0)
    } else if us.len() > 0 {
        Some(us[0])
    } else {
        None
    }
}

/// What a member of a choice becomes, where `pick` is the one that is on.
pub open spec fn member_next(
    t: super::Table,
    w: Seq<Option<Wish>>,
    g: super::Group,
    visible: bool,
    pick: Option<Seq<char>>,
    m: Seq<char>,
) -> (super::Value, Cause) {
    if pick == Some(m) {
        (
            super::Value::Tri(Tri::Y),
            match w[place_of(t, m)] {
                Some(x) => Cause::Explicit(x.source),
                None => Cause::Chosen(g.name),
            },
        )
    } else if !visible {
        (super::Value::Tri(Tri::N), Cause::DependsUnmet(expr::shown(g.depends->0)))
    } else {
        (super::Value::Tri(Tri::N), Cause::Chosen(g.name))
    }
}

/// `o` after the members from `k` on have been decided.
pub open spec fn after_members(
    t: super::Table,
    w: Seq<Option<Wish>>,
    o: Outcome,
    g: super::Group,
    visible: bool,
    pick: Option<Seq<char>>,
    k: int,
) -> Outcome
    decreases g.members.len() - k,
{
    if k < 0 || k >= g.members.len() {
        o
    } else {
        let n = member_next(t, w, g, visible, pick, g.members[k]);
        after_members(t, w, put(o, place_of(t, g.members[k]), n.0, n.1), g, visible, pick, k + 1)
    }
}

/// `o` after one choice has been decided.
pub open spec fn after_choice(t: super::Table, w: Seq<Option<Wish>>, o: Outcome, g: super::Group) -> Outcome {
    after_members(t, w, o, g, holds(o.names, o.vals, g.depends), picked(t, w, o, g), 0)
}

/// `o` after the choices from `c` on have been decided.
pub open spec fn after_choices(t: super::Table, w: Seq<Option<Wish>>, o: Outcome, c: int) -> Outcome
    decreases t.choices.len() - c,
{
    if c < 0 || c >= t.choices.len() {
        o
    } else {
        after_choices(t, w, after_choice(t, w, o, t.choices[c]), c + 1)
    }
}

/// `o` after every symbol and then every choice has been decided once.
pub open spec fn round(t: super::Table, w: Seq<Option<Wish>>, o: Outcome) -> Outcome {
    after_choices(t, w, after_symbols(t, w, selectors(t, o.names, o.vals), o, 0), 0)
}

/// Where nothing has been decided yet.
pub open spec fn start(t: super::Table) -> Outcome {
    Outcome {
        names: names_of(t),
        vals: Seq::new(t.symbols.len(), |i: int| super::zero(t.symbols[i].kind)),
        causes: Seq::new(t.symbols.len(), |i: int| Cause::Unset),
    }
}

/// The first configuration that a round leaves as it is, within `left` rounds.
pub open spec fn settled(t: super::Table, w: Seq<Option<Wish>>, o: Outcome, left: nat) -> Option<Outcome>
    decreases left,
{
    if left == 0 {
        None
    } else {
        let n = round(t, w, o);
        if n.vals == o.vals {
            Some(n)
        } else {
            settled(t, w, n, (left - 1) as nat)
        }
    }
}

/// Whether `o` is a configuration of `t`'s symbols.
pub open spec fn fits(t: super::Table, o: Outcome) -> bool {
    o.names == names_of(t) && o.vals.len() == t.symbols.len() && o.causes.len() == t.symbols.len()
}

/// How often everything is decided before a table is given up as one that never settles.
pub const MAX_ROUNDS: usize = 100;

fn is_selected(sym: &Symbol, res: &Resolution, target: &String) -> (r: bool)
    ensures
        r == pulls_now(sym@, res@.names, res@.vals, target@),
{
    let mut j: usize = 0;
    while j < sym.selects.len()
        invariant
            j <= sym.selects@.len(),
            forall|k: int|
                0 <= k < j ==> !((#[trigger] sym@.selects[k]).target == target@ && holds(
                    res@.names,
                    res@.vals,
                    sym@.selects[k].cond,
                )),
        decreases sym.selects@.len() - j,
    {
        assert(sym@.selects[j as int] == sym.selects@[j as int]@);
        if sym.selects[j].target == *target && condition_holds(&sym.selects[j].cond, res) {
            return true;
        }
        j += 1;
    }
    false
}

fn find_selector(table: &SymbolTable, res: &Resolution, target: &String) -> (r: Option<String>)
    requires
        fits(table@, res@),
    ensures
        super::opt_text(r) == selector(table@, res@.names, res@.vals, target@, 0),
{
    let mut i: usize = 0;
    while i < table.symbols.len()
        invariant
            i <= table.symbols@.len(),
            fits(table@, res@),
            selector(table@, res@.names, res@.vals, target@, 0) == selector(
                table@,
                res@.names,
                res@.vals,
                target@,
                i as int,
            ),
        decreases table.symbols@.len() - i,
    {
        assert(table@.symbols[i as int] == table.symbols@[i as int]@);
        if res.entries[i].value.is_on() && is_selected(&table.symbols[i], res, target) {
            return Some(table.symbols[i].name.clone());
        }
        i += 1;
    }
    None
}

spec fn opt_texts(v: Seq<Option<String>>) -> Seq<Option<Seq<char>>> {
    Seq::new(v.len(), |i: int| super::opt_text(v[i]))
}

fn find_selectors(table: &SymbolTable, res: &Resolution) -> (r: Vec<Option<String>>)
    requires
        fits(table@, res@),
    ensures
        opt_texts(r@) == selectors(table@, res@.names, res@.vals),
        r@.len() == table.symbols@.len(),
{
    let mut r: Vec<Option<String>> = Vec::new();
    let mut i: usize = 0;
    let ghost all = selectors(table@, res@.names, res@.vals);
    while i < table.symbols.len()
        invariant
            i <= table.symbols@.len(),
            fits(table@, res@),
            all == selectors(table@, res@.names, res@.vals),
            r@.len() == i,
            forall|k: int| 0 <= k < i ==> super::opt_text(#[trigger] r@[k]) == all[k],
        decreases table.symbols@.len() - i,
    {
        assert(table@.symbols[i as int] == table.symbols@[i as int]@);
        r.push(find_selector(table, res, &table.symbols[i].name));
        i += 1;
    }
    assert(opt_texts(r@) =~= all);
    r
}

fn first_matching_default(sym: &Symbol, res: &Resolution) -> (r: Option<Val>)
    ensures
        match r {
            Some(v) => first_default(sym@.defaults, res@, 0) == Some(v@),
            None => first_default(sym@.defaults, res@, 0) is None,
        },
{
    let mut j: usize = 0;
    while j < sym.defaults.len()
        invariant
            j <= sym.defaults@.len(),
            first_default(sym@.defaults, res@, 0) == first_default(sym@.defaults, res@, j as int),
        decreases sym.defaults@.len() - j,
    {
        assert(sym@.defaults[j as int] == sym.defaults@[j as int]@);
        if condition_holds(&sym.defaults[j].cond, res) {
            return Some(sym.defaults[j].value.clone());
        }
        j += 1;
    }
    None
}

fn decide_symbol(
    table: &SymbolTable,
    wants: &Vec<Option<Want>>,
    selected: &Vec<Option<String>>,
    res: &Resolution,
    i: usize,
) -> (r: Option<(Val, Reason)>)
    requires
        fits(table@, res@),
        i < table.symbols@.len(),
        wants@.len() == table.symbols@.len(),
        selected@.len() == table.symbols@.len(),
    ensures
        match r {
            Some((v, c)) => next_for(table@, want_views(wants@), opt_texts(selected@), res@, i as int) == Some((v@, c@)),
            None => next_for(table@, want_views(wants@), opt_texts(selected@), res@, i as int) is None,
        },
{
    let sym = &table.symbols[i];
    assert(table@.symbols[i as int] == sym@);
    match &sym.depends {
        Some(d) => {
            if eval(d, res) == Tri::N {
                return Some((Val::zero(sym.kind), Reason::DependsUnmet(d.to_text())));
            }
        },
        None => {},
    }
    if sym.choice.is_some() {
        // Choice members are decided with their choice.
        return None;
    }
    match &wants[i] {
        Some(w) => return Some((w.value.clone(), Reason::Explicit(w.source.clone()))),
        None => {},
    }
    match &selected[i] {
        Some(by) => return Some((Val::Tri(Tri::Y), Reason::SelectedBy(by.clone()))),
        None => {},
    }
    match first_matching_default(sym, res) {
        Some(v) => Some((v, Reason::Default)),
        None => Some((Val::zero(sym.kind), Reason::Unset)),
    }
}

fn decide_symbols(
    table: &SymbolTable,
    wants: &Vec<Option<Want>>,
    selected: &Vec<Option<String>>,
    res: &mut Resolution,
)
    requires
        fits(table@, old(res)@),
        wants@.len() == table.symbols@.len(),
        selected@.len() == table.symbols@.len(),
    ensures
        final(res)@ == after_symbols(table@, want_views(wants@), opt_texts(selected@), old(res)@, 0),
        fits(table@, final(res)@),
{
    let ghost w = want_views(wants@);
    let ghost sel = opt_texts(selected@);
    let mut i: usize = 0;
    while i < table.symbols.len()
        invariant
            i <= table.symbols@.len(),
            w == want_views(wants@),
            sel == opt_texts(selected@),
            wants@.len() == table.symbols@.len(),
            selected@.len() == table.symbols@.len(),
            fits(table@, res@),
            after_symbols(table@, w, sel, old(res)@, 0) == after_symbols(table@, w, sel, res@, i as int),
        decreases table.symbols@.len() - i,
    {
        match decide_symbol(table, wants, selected, res, i) {
            Some((v, c)) => {
                res.assign(i, v, c);
            },
            None => {},
        }
        i += 1;
    }
}

fn find_usable(table: &SymbolTable, choice: &Choice, res: &Resolution) -> (r: Vec<String>)
    requires
        fits(table@, res@),
        members_exist(table@, choice@),
    ensures
        text::views(r@) == usable(table@, res@, choice@.members, choice@.members.len()),
{
    let mut r: Vec<String> = Vec::new();
    let mut k: usize = 0;
    assert(text::views(r@) =~= seq![]);
    while k < choice.members.len()
        invariant
            k <= choice.members@.len(),
            fits(table@, res@),
            members_exist(table@, choice@),
            text::views(r@) == usable(table@, res@, choice@.members, k as nat),
        decreases choice.members@.len() - k,
    {
        let m = &choice.members[k];
        assert(choice@.members[k as int] == m@);
        let ghost before = text::views(r@);
        match table.index_of(m.as_str()) {
            Some(i) => {
                assert(table@.symbols[i as int] == table.symbols@[i as int]@);
                if condition_holds(&table.symbols[i].depends, res) {
                    r.push(m.clone());
                    assert(text::views(r@) =~= before.push(m@));
                }
            },
            None => {},
        }
        k += 1;
    }
    r
}

/// Whether every member of a choice is a symbol.
pub open spec fn members_exist(t: super::Table, g: super::Group) -> bool {
    forall|m: int| 0 <= m < g.members.len() ==> super::sym_from(t.symbols, #[trigger] g.members[m], 0) is Some
}

proof fn usable_are_members(t: super::Table, o: Outcome, g: super::Group, k: nat)
    requires
        members_exist(t, g),
        k <= g.members.len(),
    ensures
        forall|i: int|
            0 <= i < usable(t, o, g.members, k).len() ==> super::sym_from(
                t.symbols,
                #[trigger] usable(t, o, g.members, k)[i],
                0,
            ) is Some && g.members.contains(usable(t, o, g.members, k)[i]),
    decreases k,
{
    if k > 0 {
        usable_are_members(t, o, g, (k - 1) as nat);
        assert(g.members[k - 1] == g.members[k - 1]);
    }
}

fn first_default_member(
    defaults: &Vec<super::Default>,
    us: &Vec<String>,
    res: &Resolution,
) -> (r: Option<String>)
    ensures
        super::opt_text(r) == first_offered(super::fallbacks(defaults@), text::views(us@), res@, 0),
{
    let ghost d = super::fallbacks(defaults@);
    let ghost names = text::views(us@);
    let mut j: usize = 0;
    while j < defaults.len()
        invariant
            j <= defaults@.len(),
            d == super::fallbacks(defaults@),
            names == text::views(us@),
            first_offered(d, names, res@, 0) == first_offered(d, names, res@, j as int),
        decreases defaults@.len() - j,
    {
        assert(d[j as int] == defaults@[j as int]@);
        if condition_holds(&defaults[j].cond, res) {
            match &defaults[j].value {
                Val::Str(n) => {
                    if listed(us, n) {
                        return Some(n.clone());
                    }
                },
                _ => {},
            }
        }
        j += 1;
    }
    None
}

fn listed(names: &Vec<String>, name: &String) -> (r: bool)
    ensures
        r == text::views(names@).contains(name@),
{
    let mut i: usize = 0;
    while i < names.len()
        invariant
            i <= names@.len(),
            forall|k: int| 0 <= k < i ==> (#[trigger] names@[k])@ != name@,
        decreases names@.len() - i,
    {
        if names[i] == *name {
            assert(text::views(names@)[i as int] == name@);
            return true;
        }
        i += 1;
    }
    assert forall|k: int| 0 <= k < names@.len() implies #[trigger] text::views(names@)[k] != name@ by {
        assert(names@[k]@ != name@);
    }
    false
}

fn pick_member(
    table: &SymbolTable,
    wants: &Vec<Option<Want>>,
    choice: &Choice,
    res: &Resolution,
) -> (r: Option<String>)
    requires
        fits(table@, res@),
        members_exist(table@, choice@),
        wants@.len() == table.symbols@.len(),
    ensures
        super::opt_text(r) == picked(table@, want_views(wants@), res@, choice@),
{
    let ghost w = want_views(wants@);
    if !condition_holds(&choice.depends, res) {
        return None;
    }
    let us = find_usable(table, choice, res);
    let ghost names = text::views(us@);
    proof {
        usable_are_members(table@, res@, choice@, choice@.members.len());
    }
    let mut i: usize = 0;
    while i < us.len()
        invariant
            i <= us@.len(),
            w == want_views(wants@),
            names == text::views(us@),
            names == usable(table@, res@, choice@.members, choice@.members.len()),
            holds(res@.names, res@.vals, choice@.depends),
            wants@.len() == table.symbols@.len(),
            forall|k: int| 0 <= k < names.len() ==> super::sym_from(table@.symbols, #[trigger] names[k], 0) is Some,
            first_asked(table@, w, names, 0) == first_asked(table@, w, names, i as int),
        decreases us@.len() - i,
    {
        assert(names[i as int] == us@[i as int]@);
        match table.index_of(us[i].as_str()) {
            Some(p) => {
                assert(w[p as int] == want_view(wants@[p as int]));
                match &wants[p] {
                    Some(x) => match &x.value {
                        Val::Tri(Tri::Y) => return Some(us[i].clone()),
                        _ => {},
                    },
                    None => {},
                }
            },
            None => {},
        }
        i += 1;
    }
    match first_default_member(&choice.defaults, &us, res) {
        Some(n) => return Some(n),
        None => {},
    }
    if us.len() > 0 {
        assert(names[0] == us@[0]@);
        Some(us[0].clone())
    } else {
        None
    }
}

fn decide_choice(table: &SymbolTable, wants: &Vec<Option<Want>>, choice: &Choice, res: &mut Resolution)
    requires
        fits(table@, old(res)@),
        members_exist(table@, choice@),
        wants@.len() == table.symbols@.len(),
    ensures
        final(res)@ == after_choice(table@, want_views(wants@), old(res)@, choice@),
        fits(table@, final(res)@),
{
    let ghost w = want_views(wants@);
    let ghost g = choice@;
    let visible = condition_holds(&choice.depends, res);
    let pick = pick_member(table, wants, choice, res);
    let ghost p = super::opt_text(pick);
    let mut k: usize = 0;
    while k < choice.members.len()
        invariant
            k <= choice.members@.len(),
            w == want_views(wants@),
            g == choice@,
            p == super::opt_text(pick),
            wants@.len() == table.symbols@.len(),
            fits(table@, res@),
            members_exist(table@, g),
            !visible ==> choice.depends is Some,
            after_choice(table@, w, old(res)@, g) == after_members(table@, w, res@, g, visible, p, k as int),
        decreases choice.members@.len() - k,
    {
        let m = &choice.members[k];
        assert(g.members[k as int] == m@);
        match table.index_of(m.as_str()) {
            Some(i) => {
                assert(w[i as int] == want_view(wants@[i as int]));
                let on = match &pick {
                    Some(n) => *n == *m,
                    None => false,
                };
                if on {
                    let why = match &wants[i] {
                        Some(x) => Reason::Explicit(x.source.clone()),
                        None => Reason::Chosen(choice.name.clone()),
                    };
                    res.assign(i, Val::Tri(Tri::Y), why);
                } else if visible {
                    res.assign(i, Val::Tri(Tri::N), Reason::Chosen(choice.name.clone()));
                } else {
                    let d = match &choice.depends {
                        Some(d) => d.to_text(),
                        None => String::new(),
                    };
                    res.assign(i, Val::Tri(Tri::N), Reason::DependsUnmet(d));
                }
            },
            None => {},
        }
        k += 1;
    }
}

fn decide_choices(table: &SymbolTable, wants: &Vec<Option<Want>>, res: &mut Resolution)
    requires
        fits(table@, old(res)@),
        super::well_formed(table@),
        wants@.len() == table.symbols@.len(),
    ensures
        final(res)@ == after_choices(table@, want_views(wants@), old(res)@, 0),
        fits(table@, final(res)@),
{
    let ghost w = want_views(wants@);
    let mut c: usize = 0;
    while c < table.choices.len()
        invariant
            c <= table.choices@.len(),
            w == want_views(wants@),
            wants@.len() == table.symbols@.len(),
            super::well_formed(table@),
            fits(table@, res@),
            after_choices(table@, w, old(res)@, 0) == after_choices(table@, w, res@, c as int),
        decreases table.choices@.len() - c,
    {
        assert(table@.choices[c as int] == table.choices@[c as int]@);
        assert(members_exist(table@, table@.choices[c as int]));
        decide_choice(table, wants, &table.choices[c], res);
        c += 1;
    }
}

fn copy_values(res: &Resolution) -> (r: Vec<Val>)
    ensures
        val_views(r@) == res@.vals,
{
    let mut r: Vec<Val> = Vec::new();
    let mut i: usize = 0;
    while i < res.entries.len()
        invariant
            i <= res.entries@.len(),
            r@.len() == i,
            forall|k: int| 0 <= k < i ==> (#[trigger] r@[k])@ == res@.vals[k],
        decreases res.entries@.len() - i,
    {
        r.push(res.entries[i].value.clone());
        i += 1;
    }
    assert(val_views(r@) =~= res@.vals);
    r
}

spec fn val_views(v: Seq<Val>) -> Seq<super::Value> {
    Seq::new(v.len(), |i: int| v[i]@)
}

fn same_values(a: &Vec<Val>, res: &Resolution) -> (r: bool)
    requires
        a@.len() == res.entries@.len(),
    ensures
        r == (val_views(a@) == res@.vals),
{
    let mut i: usize = 0;
    while i < a.len()
        invariant
            i <= a@.len(),
            a@.len() == res.entries@.len(),
            forall|k: int| 0 <= k < i ==> (#[trigger] a@[k])@ == res@.vals[k],
        decreases a@.len() - i,
    {
        if !a[i].same(&res.entries[i].value) {
            assert(val_views(a@)[i as int] != res@.vals[i as int]);
            return false;
        }
        i += 1;
    }
    assert(val_views(a@) =~= res@.vals);
    true
}

fn starting_point(table: &SymbolTable) -> (r: Resolution)
    ensures
        r@ == start(table@),
        fits(table@, r@),
{
    let mut r = Resolution::new();
    let mut i: usize = 0;
    while i < table.symbols.len()
        invariant
            i <= table.symbols@.len(),
            r.entries@.len() == i,
            forall|k: int|
                0 <= k < i ==> (#[trigger] r.entries@[k]).name@ == table@.symbols[k].name && r.entries@[k].value@
                    == super::zero(table@.symbols[k].kind) && r.entries@[k].reason@ == Cause::Unset,
        decreases table.symbols@.len() - i,
    {
        let sym = &table.symbols[i];
        assert(table@.symbols[i as int] == sym@);
        r.entries.push(Entry { name: sym.name.clone(), value: Val::zero(sym.kind), reason: Reason::Unset });
        i += 1;
    }
    assert(r@ =~= start(table@));
    r
}

/// Decide every symbol and choice over and over until nothing changes. The second part of
/// the result says which symbol forces each symbol on.
fn settle(table: &SymbolTable, wants: &Vec<Option<Want>>) -> (r: Option<(Resolution, Vec<Option<String>>)>)
    requires
        super::well_formed(table@),
        wants@.len() == table.symbols@.len(),
    ensures
        match r {
            Some((o, sel)) => settled(table@, want_views(wants@), start(table@), MAX_ROUNDS as nat) == Some(o@) && fits(
                table@,
                o@,
            ) && opt_texts(sel@) == selectors(table@, o@.names, o@.vals),
            None => settled(table@, want_views(wants@), start(table@), MAX_ROUNDS as nat) is None,
        },
{
    let ghost w = want_views(wants@);
    let mut res = starting_point(table);
    let mut rounds: usize = 0;
    while rounds < MAX_ROUNDS
        invariant
            rounds <= MAX_ROUNDS,
            w == want_views(wants@),
            super::well_formed(table@),
            wants@.len() == table.symbols@.len(),
            fits(table@, res@),
            settled(table@, w, start(table@), MAX_ROUNDS as nat) == settled(
                table@,
                w,
                res@,
                (MAX_ROUNDS - rounds) as nat,
            ),
        decreases MAX_ROUNDS - rounds,
    {
        let ghost before = res@;
        let snapshot = copy_values(&res);
        let selected = find_selectors(table, &res);
        decide_symbols(table, wants, &selected, &mut res);
        decide_choices(table, wants, &mut res);
        assert(res@ == round(table@, w, before));
        if same_values(&snapshot, &res) {
            return Some((res, selected));
        }
        rounds += 1;
    }
    None
}

// ---- validation ----

/// Why the symbol called `name` is as it is, in words.
pub open spec fn origin_text(o: Outcome, name: Seq<char>) -> Seq<char> {
    match found(o.names, name, 0) {
        Some(i) => described(o.causes[i], name),
        None => name + " is set"@,
    }
}

fn describe_origin(res: &Resolution, sym: &str) -> (r: String)
    ensures
        r@ == origin_text(res@, sym@),
{
    match res.reason(sym) {
        Some(why) => why.describe(sym),
        None => text2(sym, " is set"),
    }
}

/// Up to three of the first `k` symbols that are off, each said to be.
pub open spec fn off_links(o: Outcome, syms: Seq<Seq<char>>, k: nat) -> Seq<Seq<char>>
    decreases k,
{
    if k == 0 {
        seq![]
    } else {
        let before = off_links(o, syms, (k - 1) as nat);
        if before.len() < 3 && tri_in(o.names, o.vals, syms[k - 1]) == Tri::N {
            before.push(syms[k - 1] + " is "@ + expr::tri_text(Tri::N))
        } else {
            before
        }
    }
}

/// What a request that cannot be met says.
pub open spec fn cannot_set(name: Seq<char>, want: super::Value) -> Seq<char> {
    "cannot set "@ + name + "="@ + super::written(want)
}

/// What keeps the symbol at `i` from being what was asked of it, if anything does.
pub open spec fn set_fault(t: super::Table, w: Seq<Option<Wish>>, o: Outcome, i: int) -> Option<Fault> {
    let s = t.symbols[i];
    let by = selectors(t, o.names, o.vals)[i];
    if w[i] is None {
        None
    } else {
        let want = w[i]->0.value;
        if super::truth(want) == Tri::N && by is Some {
            Some(
                Fault {
                    msg: cannot_set(s.name, want),
                    chain: seq![s.name + " is selected by "@ + by->0, origin_text(o, by->0)],
                    hint: Some("to disable "@ + s.name + ", first disable "@ + by->0),
                },
            )
        } else if want == super::Value::Tri(Tri::M) && tri_in(o.names, o.vals, MODULES@) != Tri::Y {
            Some(
                Fault {
                    msg: cannot_set(s.name, want),
                    chain: seq!["loadable modules do not exist yet"@],
                    hint: Some("build "@ + s.name + " in with y, or leave it out with n"@),
                },
            )
        } else if o.vals[i] == want {
            None
        } else {
            match o.causes[i] {
                Cause::SelectedBy(b) => Some(
                    Fault {
                        msg: cannot_set(s.name, want),
                        chain: seq![s.name + " is selected by "@ + b, origin_text(o, b)],
                        hint: Some("to change "@ + s.name + ", first disable "@ + b),
                    },
                ),
                Cause::DependsUnmet(d) => Some(
                    Fault {
                        msg: cannot_set(s.name, want),
                        chain: seq![s.name + " depends on `"@ + d + "`"@] + match s.depends {
                            Some(e) => off_links(o, expr::named(e), expr::named(e).len()),
                            None => seq![],
                        },
                        hint: Some("enable its dependencies first, or leave "@ + s.name + " unset"@),
                    },
                ),
                Cause::Chosen(c) => Some(
                    Fault {
                        msg: cannot_set(s.name, want),
                        chain: seq![s.name + " belongs to choice "@ + c + ", which selected another member"@],
                        hint: Some("set exactly one member of "@ + c + " to y"@),
                    },
                ),
                other => Some(
                    Fault {
                        msg: s.name + " resolved to "@ + super::written(o.vals[i]) + " despite being set to "@
                            + super::written(want),
                        chain: seq![described(other, s.name)],
                        hint: None,
                    },
                ),
            }
        }
    }
}

/// What keeps the first `k` symbols from being what was asked of them.
pub open spec fn set_faults(t: super::Table, w: Seq<Option<Wish>>, o: Outcome, k: nat) -> Seq<Fault>
    decreases k,
{
    if k == 0 {
        seq![]
    } else {
        match set_fault(t, w, o, k - 1) {
            Some(f) => set_faults(t, w, o, (k - 1) as nat).push(f),
            None => set_faults(t, w, o, (k - 1) as nat),
        }
    }
}

/// The first range from `j` on whose condition holds.
pub open spec fn active_span(r: Seq<super::Span>, o: Outcome, j: int) -> Option<super::Span>
    decreases r.len() - j,
{
    if j < 0 || j >= r.len() {
        None
    } else if holds(o.names, o.vals, r[j].cond) {
        Some(r[j])
    } else {
        active_span(r, o, j + 1)
    }
}

/// The number a value is, if it is one.
pub open spec fn number_in(v: super::Value) -> Option<int> {
    match v {
        super::Value::Int(i) => Some(i),
        super::Value::Hex(h) => Some(h),
        _ => None,
    }
}

/// Whether the symbol at `i` lies inside the range that applies to it, if it has one.
pub open spec fn in_range(t: super::Table, o: Outcome, i: int) -> bool {
    match (active_span(t.symbols[i].ranges, o, 0), number_in(o.vals[i])) {
        (Some(r), Some(n)) => r.lo <= n <= r.hi,
        _ => true,
    }
}

/// What is wrong with the value of the symbol at `i`, if it is outside its range. A symbol
/// whose dependencies are unmet is not part of the build, and not checked.
pub open spec fn range_fault(t: super::Table, o: Outcome, i: int) -> Option<Fault> {
    let s = t.symbols[i];
    if o.causes[i] is DependsUnmet || in_range(t, o, i) {
        None
    } else {
        let r = active_span(s.ranges, o, 0)->0;
        Some(
            Fault {
                msg: s.name + " = "@ + super::written(o.vals[i]) + " is outside its range "@ + text::decimal(r.lo)
                    + "..="@ + text::decimal(r.hi),
                chain: seq![described(o.causes[i], s.name), "declared at "@ + super::place_text(s.origin)],
                hint: None,
            },
        )
    }
}

/// What is outside its range among the first `k` symbols.
pub open spec fn range_faults(t: super::Table, o: Outcome, k: nat) -> Seq<Fault>
    decreases k,
{
    if k == 0 {
        seq![]
    } else {
        match range_fault(t, o, k - 1) {
            Some(f) => range_faults(t, o, (k - 1) as nat).push(f),
            None => range_faults(t, o, (k - 1) as nat),
        }
    }
}

/// The first `j` selects of `s` that name no symbol.
pub open spec fn unknown_selects(t: super::Table, s: super::Sym, j: nat) -> Seq<Fault>
    decreases j,
{
    if j == 0 {
        seq![]
    } else {
        let before = unknown_selects(t, s, (j - 1) as nat);
        let target = s.selects[j - 1].target;
        if super::sym_from(t.symbols, target, 0) is None {
            before.push(
                Fault {
                    msg: s.name + " selects unknown symbol `"@ + target + "`"@,
                    chain: seq!["at "@ + super::place_text(s.origin)],
                    hint: suggestion(t, target),
                },
            )
        } else {
            before
        }
    }
}

/// The selects among the first `k` symbols that name no symbol.
pub open spec fn select_faults(t: super::Table, k: nat) -> Seq<Fault>
    decreases k,
{
    if k == 0 {
        seq![]
    } else {
        select_faults(t, (k - 1) as nat) + unknown_selects(t, t.symbols[k - 1], t.symbols[k - 1].selects.len())
    }
}

/// Everything wrong with a settled configuration.
pub open spec fn all_faults(t: super::Table, w: Seq<Option<Wish>>, o: Outcome) -> Seq<Fault> {
    let n = t.symbols.len();
    set_faults(t, w, o, n) + range_faults(t, o, n) + select_faults(t, n)
}

/// The error of a table whose rounds never come to rest.
pub open spec fn no_rest() -> Fault {
    Fault {
        msg: "configuration did not converge"@,
        chain: seq!["gave up after 100 rounds"@],
        hint: Some("this indicates a dependency cycle in the .kcfg files"@),
    }
}

/// The configuration that requests give, or everything that is wrong with them.
pub open spec fn resolved(t: super::Table, asked: Seq<Ask>) -> Result<Outcome, Seq<Fault>> {
    let bad = ask_faults(t, asked, asked.len());
    let w = wishes(t, asked, asked.len());
    if bad.len() > 0 {
        Err(bad)
    } else {
        match settled(t, w, start(t), MAX_ROUNDS as nat) {
            None => Err(seq![no_rest()]),
            Some(o) => if all_faults(t, w, o).len() > 0 {
                Err(all_faults(t, w, o))
            } else {
                Ok(o)
            },
        }
    }
}

fn off_chain(first: String, d: &Option<Expr>, res: &Resolution) -> (r: Vec<String>)
    ensures
        text::views(r@) == seq![first@] + match super::opt_cond(*d) {
            Some(e) => off_links(res@, expr::named(e), expr::named(e).len()),
            None => seq![],
        },
{
    let mut chain = one_link(first);
    let ghost lead = seq![first@];
    assert(lead + seq![] =~= lead);
    match d {
        None => {},
        Some(e) => {
            let mut syms: Vec<String> = Vec::new();
            let ghost none = text::views(syms@);
            e.symbols(&mut syms);
            let ghost names = expr::named(e@);
            assert(none =~= seq![]);
            assert(text::views(syms@) =~= names);
            let mut i: usize = 0;
            while i < syms.len()
                invariant
                    i <= syms@.len(),
                    names == text::views(syms@),
                    lead.len() == 1,
                    text::views(chain@) == lead + off_links(res@, names, i as nat),
                decreases syms@.len() - i,
            {
                assert(names[i as int] == syms@[i as int]@);
                let ghost before = text::views(chain@);
                let ghost off = off_links(res@, names, i as nat);
                assert(before.len() == 1 + off.len());
                if chain.len() < 4 && !res.is_on(syms[i].as_str()) {
                    let link = text3(syms[i].as_str(), " is ", Tri::N.as_str());
                    let ghost l = link@;
                    chain.push(link);
                    assert(text::views(chain@) =~= before.push(l));
                    assert(lead + off.push(l) =~= before.push(l));
                }
                i += 1;
            }
        },
    }
    chain
}

fn check_set(
    table: &SymbolTable,
    wants: &Vec<Option<Want>>,
    selected: &Vec<Option<String>>,
    res: &Resolution,
    i: usize,
) -> (r: Option<ResolveError>)
    requires
        fits(table@, res@),
        i < table.symbols@.len(),
        wants@.len() == table.symbols@.len(),
        opt_texts(selected@) == selectors(table@, res@.names, res@.vals),
    ensures
        match r {
            Some(e) => set_fault(table@, want_views(wants@), res@, i as int) == Some(e@),
            None => set_fault(table@, want_views(wants@), res@, i as int) is None,
        },
{
    let sym = &table.symbols[i];
    let name = sym.name.as_str();
    assert(table@.symbols[i as int] == sym@);
    assert(want_views(wants@)[i as int] == want_view(wants@[i as int]));
    assert(opt_texts(selected@).len() == table.symbols@.len());
    assert(opt_texts(selected@)[i as int] == super::opt_text(selected@[i as int]));
    let want = match &wants[i] {
        Some(w) => &w.value,
        None => return None,
    };
    let mut head = text3("cannot set ", name, "=");
    head.append(want.display().as_str());
    if want.as_tri() == Tri::N {
        match &selected[i] {
            Some(by) => {
                let mut hint = text3("to disable ", name, ", first disable ");
                hint.append(by.as_str());
                let e = ResolveError {
                    msg: head,
                    chain: two_links(
                        text3(name, " is selected by ", by.as_str()),
                        describe_origin(res, by.as_str()),
                    ),
                    hint: Some(hint),
                };
                return Some(e);
            },
            None => {},
        }
    }
    match want {
        Val::Tri(Tri::M) => {
            if res.tri(MODULES) != Tri::Y {
                let e = ResolveError {
                    msg: head,
                    chain: one_link("loadable modules do not exist yet".to_owned()),
                    hint: Some(text3("build ", name, " in with y, or leave it out with n")),
                };
                return Some(e);
            }
        },
        _ => {},
    }
    let got = &res.entries[i].value;
    if got.same(want) {
        return None;
    }
    match &res.entries[i].reason {
        Reason::SelectedBy(by) => {
            let mut hint = text3("to change ", name, ", first disable ");
            hint.append(by.as_str());
            let e = ResolveError {
                msg: head,
                chain: two_links(text3(name, " is selected by ", by.as_str()), describe_origin(res, by.as_str())),
                hint: Some(hint),
            };
            Some(e)
        },
        Reason::DependsUnmet(d) => {
            let mut link = text3(name, " depends on `", d.as_str());
            link.append("`");
            let e = ResolveError {
                msg: head,
                chain: off_chain(link, &sym.depends, res),
                hint: Some(text3("enable its dependencies first, or leave ", name, " unset")),
            };
            Some(e)
        },
        Reason::Chosen(c) => {
            let mut link = text3(name, " belongs to choice ", c.as_str());
            link.append(", which selected another member");
            let e = ResolveError {
                msg: head,
                chain: one_link(link),
                hint: Some(text3("set exactly one member of ", c.as_str(), " to y")),
            };
            Some(e)
        },
        other => {
            let mut msg = text3(name, " resolved to ", got.display().as_str());
            msg.append(" despite being set to ");
            msg.append(want.display().as_str());
            let e = ResolveError { msg, chain: one_link(other.describe(name)), hint: None };
            Some(e)
        },
    }
}

/// The range that applies to a symbol: the first whose condition holds.
pub fn active_range<'a>(sym: &'a Symbol, res: &Resolution) -> (r: Option<&'a Range>)
    ensures
        match r {
            Some(x) => active_span(sym@.ranges, res@, 0) == Some(x@),
            None => active_span(sym@.ranges, res@, 0) is None,
        },
{
    let mut j: usize = 0;
    while j < sym.ranges.len()
        invariant
            j <= sym.ranges@.len(),
            active_span(sym@.ranges, res@, 0) == active_span(sym@.ranges, res@, j as int),
        decreases sym.ranges@.len() - j,
    {
        assert(sym@.ranges[j as int] == sym.ranges@[j as int]@);
        if condition_holds(&sym.ranges[j].cond, res) {
            return Some(&sym.ranges[j]);
        }
        j += 1;
    }
    None
}

/// The range that applies is one of those declared.
pub(crate) proof fn active_span_is_listed(r: Seq<super::Span>, o: Outcome, j: int)
    requires
        active_span(r, o, j) is Some,
    ensures
        exists|k: int| 0 <= k < r.len() && #[trigger] r[k] == active_span(r, o, j)->0,
    decreases r.len() - j,
{
    if !holds(o.names, o.vals, r[j].cond) {
        active_span_is_listed(r, o, j + 1);
    }
}

fn check_range(table: &SymbolTable, res: &Resolution, i: usize) -> (r: Option<ResolveError>)
    requires
        super::well_formed(table@),
        fits(table@, res@),
        i < table.symbols@.len(),
    ensures
        match r {
            Some(e) => range_fault(table@, res@, i as int) == Some(e@),
            None => range_fault(table@, res@, i as int) is None,
        },
{
    let sym = &table.symbols[i];
    assert(table@.symbols[i as int] == sym@);
    let entry = &res.entries[i];
    match &entry.reason {
        Reason::DependsUnmet(_) => return None,
        _ => {},
    }
    let range = match active_range(sym, res) {
        Some(r) => r,
        None => return None,
    };
    let n: i128 = match &entry.value {
        Val::Int(v) => *v as i128,
        Val::Hex(v) => *v as i128,
        _ => return None,
    };
    if range.lo <= n && n <= range.hi {
        return None;
    }
    proof {
        assert(super::sym_sound(table@, table@.symbols[i as int]));
        active_span_is_listed(sym@.ranges, res@, 0);
    }
    let mut msg = text3(sym.name.as_str(), " = ", entry.value.display().as_str());
    msg.append(" is outside its range ");
    msg.append(text::int_text(range.lo).as_str());
    msg.append("..=");
    msg.append(text::int_text(range.hi).as_str());
    let e = ResolveError {
        msg,
        chain: two_links(
            entry.reason.describe(sym.name.as_str()),
            text2("declared at ", sym.origin.to_text().as_str()),
        ),
        hint: None,
    };
    Some(e)
}

fn check_selects(table: &SymbolTable, sym: &Symbol, errors: &mut Vec<ResolveError>)
    ensures
        faults(final(errors)@) == faults(old(errors)@) + unknown_selects(table@, sym@, sym@.selects.len()),
{
    let ghost lead = faults(errors@);
    assert(lead + seq![] =~= lead);
    let mut j: usize = 0;
    while j < sym.selects.len()
        invariant
            j <= sym.selects@.len(),
            faults(errors@) == lead + unknown_selects(table@, sym@, j as nat),
        decreases sym.selects@.len() - j,
    {
        assert(sym@.selects[j as int] == sym.selects@[j as int]@);
        let target = sym.selects[j].target.as_str();
        let ghost before = faults(errors@);
        let ghost u = unknown_selects(table@, sym@, j as nat);
        if table.index_of(target).is_none() {
            let mut msg = text3(sym.name.as_str(), " selects unknown symbol `", target);
            msg.append("`");
            let e = ResolveError {
                msg,
                chain: one_link(text2("at ", sym.origin.to_text().as_str())),
                hint: nearest(table, target),
            };
            let ghost f = e@;
            errors.push(e);
            assert(faults(errors@) =~= before.push(f));
            assert(lead + u.push(f) =~= before.push(f));
        }
        j += 1;
    }
}

fn check_all(
    table: &SymbolTable,
    wants: &Vec<Option<Want>>,
    selected: &Vec<Option<String>>,
    res: &Resolution,
) -> (errors: Vec<ResolveError>)
    requires
        super::well_formed(table@),
        fits(table@, res@),
        wants@.len() == table.symbols@.len(),
        opt_texts(selected@) == selectors(table@, res@.names, res@.vals),
    ensures
        faults(errors@) == all_faults(table@, want_views(wants@), res@),
{
    let ghost t = table@;
    let ghost w = want_views(wants@);
    let ghost n = table.symbols@.len();
    let mut errors: Vec<ResolveError> = Vec::new();
    assert(faults(errors@) =~= seq![]);
    let mut i: usize = 0;
    while i < table.symbols.len()
        invariant
            i <= table.symbols@.len(),
            t == table@,
            w == want_views(wants@),
            fits(t, res@),
            wants@.len() == table.symbols@.len(),
            opt_texts(selected@) == selectors(t, res@.names, res@.vals),
            faults(errors@) == set_faults(t, w, res@, i as nat),
        decreases table.symbols@.len() - i,
    {
        let ghost before = faults(errors@);
        match check_set(table, wants, selected, res, i) {
            Some(e) => {
                let ghost f = e@;
                errors.push(e);
                assert(faults(errors@) =~= before.push(f));
            },
            None => {},
        }
        i += 1;
    }
    let ghost sets = faults(errors@);
    assert(sets + seq![] =~= sets);
    let mut i: usize = 0;
    while i < table.symbols.len()
        invariant
            i <= table.symbols@.len(),
            t == table@,
            super::well_formed(t),
            fits(t, res@),
            faults(errors@) == sets + range_faults(t, res@, i as nat),
        decreases table.symbols@.len() - i,
    {
        let ghost before = faults(errors@);
        let ghost ranges = range_faults(t, res@, i as nat);
        match check_range(table, res, i) {
            Some(e) => {
                let ghost f = e@;
                errors.push(e);
                assert(faults(errors@) =~= before.push(f));
                assert(sets + ranges.push(f) =~= before.push(f));
            },
            None => {},
        }
        i += 1;
    }
    let ghost ranged = faults(errors@);
    assert(ranged + seq![] =~= ranged);
    let mut i: usize = 0;
    while i < table.symbols.len()
        invariant
            i <= table.symbols@.len(),
            t == table@,
            faults(errors@) == ranged + select_faults(t, i as nat),
        decreases table.symbols@.len() - i,
    {
        let sym = &table.symbols[i];
        assert(t.symbols[i as int] == sym@);
        let ghost s = select_faults(t, i as nat);
        check_selects(table, sym, &mut errors);
        assert((ranged + s) + unknown_selects(t, sym@, sym@.selects.len()) =~= ranged + (s + unknown_selects(
            t,
            sym@,
            sym@.selects.len(),
        )));
        i += 1;
    }
    errors
}

/// Resolve `requests` against `table` into a complete configuration.
pub fn resolve(table: &SymbolTable, requests: &[Request]) -> (r: Result<Resolution, Vec<ResolveError>>)
    requires
        super::well_formed(table@),
    ensures
        match r {
            Ok(o) => resolved(table@, asks(requests@)) == Ok::<Outcome, Seq<Fault>>(o@),
            Err(e) => resolved(table@, asks(requests@)) == Err::<Outcome, Seq<Fault>>(faults(e@)) && e@.len() > 0,
        },
{
    let wants = match check_requests(table, requests) {
        Ok(w) => w,
        Err(e) => return Err(e),
    };
    assert(want_views(wants@).len() == table.symbols@.len());
    let (res, selected) = match settle(table, &wants) {
        Some(x) => x,
        None => {
            let e = ResolveError {
                msg: "configuration did not converge".to_owned(),
                chain: one_link("gave up after 100 rounds".to_owned()),
                hint: Some("this indicates a dependency cycle in the .kcfg files".to_owned()),
            };
            let mut errors: Vec<ResolveError> = Vec::new();
            errors.push(e);
            assert(faults(errors@) =~= seq![no_rest()]);
            return Err(errors);
        },
    };
    let errors = check_all(table, &wants, &selected, &res);
    if errors.len() > 0 {
        assert(faults(errors@).len() > 0);
        Err(errors)
    } else {
        assert(faults(errors@).len() == 0);
        Ok(res)
    }
}

/// Why the symbol called `name` is as it is, and why the symbols that force it on are,
/// as far as `left` links.
pub open spec fn explanation(o: Outcome, name: Seq<char>, left: nat) -> Seq<Seq<char>>
    decreases left,
{
    let first = origin_text(o, name);
    match found(o.names, name, 0) {
        Some(i) => match o.causes[i] {
            Cause::SelectedBy(by) => if left > 0 {
                seq![first] + explanation(o, by, (left - 1) as nat)
            } else {
                seq![first]
            },
            _ => seq![first],
        },
        None => seq![first],
    }
}

impl Resolution {
    /// Why the symbol called `name` is as it is, one link to a line: its own reason, and
    /// where that is a `select`, the reason of the symbol that selects it, and so on.
    pub fn explain(&self, table: &SymbolTable, name: &str) -> (r: Vec<String>)
        ensures
            text::views(r@) == explanation(self@, name@, table@.symbols.len()),
    {
        let mut out: Vec<String> = Vec::new();
        let mut at = name.to_owned();
        let mut left: usize = table.symbols.len();
        let ghost all = explanation(self@, name@, left as nat);
        assert(text::views(out@) + all =~= all);
        loop
            invariant_except_break
                text::views(out@) + explanation(self@, at@, left as nat) == all,
            ensures
                text::views(out@) == all,
            decreases left,
        {
            let ghost before = text::views(out@);
            let ghost rest = explanation(self@, at@, left as nat);
            let line = describe_origin(self, at.as_str());
            let ghost l = line@;
            out.push(line);
            assert(text::views(out@) =~= before.push(l));
            assert(before + seq![l] =~= before.push(l));
            let next = match self.reason(at.as_str()) {
                Some(Reason::SelectedBy(by)) => {
                    if left > 0 {
                        Some(by.clone())
                    } else {
                        None
                    }
                },
                _ => None,
            };
            match next {
                Some(by) => {
                    left -= 1;
                    assert(before + (seq![l] + explanation(self@, by@, left as nat)) =~= before.push(l) + explanation(
                        self@,
                        by@,
                        left as nat,
                    ));
                    at = by;
                },
                None => {
                    break;
                },
            }
        }
        out
    }
}

// ---- laws ----

proof fn no_set_fault(t: super::Table, w: Seq<Option<Wish>>, o: Outcome, k: nat, i: int)
    requires
        set_faults(t, w, o, k).len() == 0,
        0 <= i < k,
    ensures
        set_fault(t, w, o, i) is None,
    decreases k,
{
    if i < k - 1 {
        no_set_fault(t, w, o, (k - 1) as nat, i);
    }
}

proof fn no_range_fault(t: super::Table, o: Outcome, k: nat, i: int)
    requires
        range_faults(t, o, k).len() == 0,
        0 <= i < k,
    ensures
        range_fault(t, o, i) is None,
    decreases k,
{
    if i < k - 1 {
        no_range_fault(t, o, (k - 1) as nat, i);
    }
}

proof fn no_select_fault(t: super::Table, k: nat, i: int)
    requires
        select_faults(t, k).len() == 0,
        0 <= i < k,
    ensures
        unknown_selects(t, t.symbols[i], t.symbols[i].selects.len()).len() == 0,
    decreases k,
{
    if i < k - 1 {
        no_select_fault(t, (k - 1) as nat, i);
    }
}

proof fn no_unknown_select(t: super::Table, s: super::Sym, j: nat, k: int)
    requires
        unknown_selects(t, s, j).len() == 0,
        0 <= k < j,
    ensures
        super::sym_from(t.symbols, s.selects[k].target, 0) is Some,
    decreases j,
{
    if k < j - 1 {
        no_unknown_select(t, s, (j - 1) as nat, k);
    }
}

/// Every request is honoured: in a configuration that resolved, each symbol that was asked
/// for holds what the last request for it asked. None is overridden in silence: a symbol
/// that another selects cannot have been asked to be off, and one asked to be a module
/// needs modules to exist.
pub proof fn requests_are_honoured(t: super::Table, asked: Seq<Ask>, i: int)
    requires
        resolved(t, asked) is Ok,
        0 <= i < t.symbols.len(),
        wishes(t, asked, asked.len())[i] is Some,
    ensures
        ({
            let o = resolved(t, asked)->Ok_0;
            let want = wishes(t, asked, asked.len())[i]->0.value;
            &&& o.vals[i] == want
            &&& selectors(t, o.names, o.vals)[i] is Some ==> super::truth(want) != Tri::N
            &&& want == super::Value::Tri(Tri::M) ==> tri_in(o.names, o.vals, MODULES@) == Tri::Y
        }),
{
    let o = resolved(t, asked)->Ok_0;
    let w = wishes(t, asked, asked.len());
    no_set_fault(t, w, o, t.symbols.len(), i);
}

/// Every number that is part of the build lies inside the range that applies to it.
pub proof fn ranges_hold(t: super::Table, asked: Seq<Ask>, i: int)
    requires
        resolved(t, asked) is Ok,
        0 <= i < t.symbols.len(),
    ensures
        resolved(t, asked)->Ok_0.causes[i] is DependsUnmet || in_range(t, resolved(t, asked)->Ok_0, i),
{
    no_range_fault(t, resolved(t, asked)->Ok_0, t.symbols.len(), i);
}

/// A table that resolves at all selects only symbols it has.
pub proof fn selects_exist(t: super::Table, asked: Seq<Ask>, i: int, j: int)
    requires
        resolved(t, asked) is Ok,
        0 <= i < t.symbols.len(),
        0 <= j < t.symbols[i].selects.len(),
    ensures
        super::sym_from(t.symbols, t.symbols[i].selects[j].target, 0) is Some,
{
    no_select_fault(t, t.symbols.len(), i);
    no_unknown_select(t, t.symbols[i], t.symbols[i].selects.len(), j);
}

proof fn sym_from_bounds(t: super::Table, name: Seq<char>, i: int)
    requires
        0 <= i,
    ensures
        super::sym_from(t.symbols, name, i) is Some ==> i <= super::sym_from(t.symbols, name, i)->0
            < t.symbols.len() && t.symbols[super::sym_from(t.symbols, name, i)->0].name == name,
    decreases t.symbols.len() - i,
{
    if i < t.symbols.len() && t.symbols[i].name != name {
        sym_from_bounds(t, name, i + 1);
    }
}

proof fn symbols_keep_shape(t: super::Table, w: Seq<Option<Wish>>, sel: Seq<Option<Seq<char>>>, o: Outcome, i: int)
    requires
        fits(t, o),
    ensures
        fits(t, after_symbols(t, w, sel, o, i)),
    decreases t.symbols.len() - i,
{
    if 0 <= i < t.symbols.len() {
        match next_for(t, w, sel, o, i) {
            Some((v, c)) => symbols_keep_shape(t, w, sel, put(o, i, v, c), i + 1),
            None => symbols_keep_shape(t, w, sel, o, i + 1),
        }
    }
}

proof fn members_keep_shape(
    t: super::Table,
    w: Seq<Option<Wish>>,
    o: Outcome,
    g: super::Group,
    visible: bool,
    pick: Option<Seq<char>>,
    k: int,
)
    requires
        fits(t, o),
        members_exist(t, g),
    ensures
        fits(t, after_members(t, w, o, g, visible, pick, k)),
    decreases g.members.len() - k,
{
    if 0 <= k < g.members.len() {
        let n = member_next(t, w, g, visible, pick, g.members[k]);
        same_place(t, g.members[k], g.members[k]);
        members_keep_shape(t, w, put(o, place_of(t, g.members[k]), n.0, n.1), g, visible, pick, k + 1);
    }
}

proof fn choices_keep_shape(t: super::Table, w: Seq<Option<Wish>>, o: Outcome, c: int)
    requires
        fits(t, o),
        super::well_formed(t),
    ensures
        fits(t, after_choices(t, w, o, c)),
    decreases t.choices.len() - c,
{
    if 0 <= c < t.choices.len() {
        let g = t.choices[c];
        assert(members_exist(t, g));
        members_keep_shape(t, w, o, g, holds(o.names, o.vals, g.depends), picked(t, w, o, g), 0);
        choices_keep_shape(t, w, after_choice(t, w, o, g), c + 1);
    }
}

proof fn settled_is_a_round(t: super::Table, w: Seq<Option<Wish>>, o: Outcome, left: nat) -> (before: Outcome)
    requires
        fits(t, o),
        super::well_formed(t),
        settled(t, w, o, left) is Some,
    ensures
        fits(t, before),
        settled(t, w, o, left)->0 == round(t, w, before),
        before.vals == round(t, w, before).vals,
        fits(t, round(t, w, before)),
    decreases left,
{
    let n = round(t, w, o);
    symbols_keep_shape(t, w, selectors(t, o.names, o.vals), o, 0);
    choices_keep_shape(t, w, after_symbols(t, w, selectors(t, o.names, o.vals), o, 0), 0);
    if n.vals == o.vals {
        o
    } else {
        settled_is_a_round(t, w, n, (left - 1) as nat)
    }
}

/// Every symbol ends up with a value and a recorded reason for it.
pub proof fn every_symbol_is_decided(t: super::Table, asked: Seq<Ask>)
    requires
        super::well_formed(t),
        resolved(t, asked) is Ok,
    ensures
        fits(t, resolved(t, asked)->Ok_0),
{
    let w = wishes(t, asked, asked.len());
    let _ = settled_is_a_round(t, w, start(t), MAX_ROUNDS as nat);
}

/// Two configurations that differ at most in their reasons.
pub open spec fn alike(a: Outcome, b: Outcome) -> bool {
    a.names == b.names && a.vals == b.vals
}

proof fn first_default_alike(d: Seq<super::Fallback>, a: Outcome, b: Outcome, j: int)
    requires
        alike(a, b),
    ensures
        first_default(d, a, j) == first_default(d, b, j),
    decreases d.len() - j,
{
    if 0 <= j < d.len() {
        first_default_alike(d, a, b, j + 1);
    }
}

proof fn first_offered_alike(d: Seq<super::Fallback>, us: Seq<Seq<char>>, a: Outcome, b: Outcome, j: int)
    requires
        alike(a, b),
    ensures
        first_offered(d, us, a, j) == first_offered(d, us, b, j),
    decreases d.len() - j,
{
    if 0 <= j < d.len() {
        first_offered_alike(d, us, a, b, j + 1);
    }
}

proof fn usable_alike(t: super::Table, a: Outcome, b: Outcome, members: Seq<Seq<char>>, k: nat)
    requires
        alike(a, b),
    ensures
        usable(t, a, members, k) == usable(t, b, members, k),
    decreases k,
{
    if k > 0 {
        usable_alike(t, a, b, members, (k - 1) as nat);
    }
}

proof fn symbols_alike(
    t: super::Table,
    w: Seq<Option<Wish>>,
    sel: Seq<Option<Seq<char>>>,
    a: Outcome,
    b: Outcome,
    i: int,
)
    requires
        alike(a, b),
    ensures
        alike(after_symbols(t, w, sel, a, i), after_symbols(t, w, sel, b, i)),
    decreases t.symbols.len() - i,
{
    if 0 <= i < t.symbols.len() {
        first_default_alike(t.symbols[i].defaults, a, b, 0);
        match next_for(t, w, sel, a, i) {
            Some((v, c)) => symbols_alike(t, w, sel, put(a, i, v, c), put(b, i, v, c), i + 1),
            None => symbols_alike(t, w, sel, a, b, i + 1),
        }
    }
}

proof fn members_alike(
    t: super::Table,
    w: Seq<Option<Wish>>,
    a: Outcome,
    b: Outcome,
    g: super::Group,
    visible: bool,
    pick: Option<Seq<char>>,
    k: int,
)
    requires
        alike(a, b),
    ensures
        alike(after_members(t, w, a, g, visible, pick, k), after_members(t, w, b, g, visible, pick, k)),
    decreases g.members.len() - k,
{
    if 0 <= k < g.members.len() {
        let n = member_next(t, w, g, visible, pick, g.members[k]);
        let p = place_of(t, g.members[k]);
        members_alike(t, w, put(a, p, n.0, n.1), put(b, p, n.0, n.1), g, visible, pick, k + 1);
    }
}

proof fn choices_alike(t: super::Table, w: Seq<Option<Wish>>, a: Outcome, b: Outcome, c: int)
    requires
        alike(a, b),
    ensures
        alike(after_choices(t, w, a, c), after_choices(t, w, b, c)),
    decreases t.choices.len() - c,
{
    if 0 <= c < t.choices.len() {
        let g = t.choices[c];
        usable_alike(t, a, b, g.members, g.members.len());
        first_offered_alike(g.defaults, usable(t, a, g.members, g.members.len()), a, b, 0);
        members_alike(t, w, a, b, g, holds(a.names, a.vals, g.depends), picked(t, w, a, g), 0);
        choices_alike(t, w, after_choice(t, w, a, g), after_choice(t, w, b, g), c + 1);
    }
}

/// A resolved configuration is at rest: deciding everything once more changes no value.
pub proof fn resolution_is_at_rest(t: super::Table, asked: Seq<Ask>)
    requires
        super::well_formed(t),
        resolved(t, asked) is Ok,
    ensures
        round(t, wishes(t, asked, asked.len()), resolved(t, asked)->Ok_0).vals == resolved(t, asked)->Ok_0.vals,
{
    let w = wishes(t, asked, asked.len());
    let before = settled_is_a_round(t, w, start(t), MAX_ROUNDS as nat);
    let o = resolved(t, asked)->Ok_0;
    let sel = selectors(t, o.names, o.vals);
    symbols_alike(t, w, sel, before, o, 0);
    choices_alike(t, w, after_symbols(t, w, sel, before, 0), after_symbols(t, w, sel, o, 0), 0);
}

/// Whether at most one member of `g` is on.
pub open spec fn one_on(t: super::Table, o: Outcome, g: super::Group) -> bool {
    forall|a: int, b: int|
        0 <= a < g.members.len() && 0 <= b < g.members.len() && super::truth(
            o.vals[place_of(t, #[trigger] g.members[a])],
        ) != Tri::N && super::truth(o.vals[place_of(t, #[trigger] g.members[b])]) != Tri::N ==> g.members[a]
            == g.members[b]
}

proof fn same_place(t: super::Table, a: Seq<char>, b: Seq<char>)
    requires
        super::sym_from(t.symbols, a, 0) is Some,
        super::sym_from(t.symbols, b, 0) is Some,
    ensures
        0 <= place_of(t, a) < t.symbols.len(),
        t.symbols[place_of(t, a)].name == a,
        place_of(t, a) == place_of(t, b) ==> a == b,
{
    sym_from_bounds(t, a, 0);
    sym_from_bounds(t, b, 0);
}

/// Members from `k` on have been decided: those before keep what they have, those from `k`
/// on are on exactly where `pick` names them, and no other symbol is touched.
proof fn members_decided(
    t: super::Table,
    w: Seq<Option<Wish>>,
    o: Outcome,
    g: super::Group,
    visible: bool,
    pick: Option<Seq<char>>,
    k: int,
)
    requires
        fits(t, o),
        members_exist(t, g),
        0 <= k,
    ensures
        ({
            let n = after_members(t, w, o, g, visible, pick, k);
            &&& forall|m: int|
                k <= m < g.members.len() ==> n.vals[place_of(t, #[trigger] g.members[m])] == super::Value::Tri(
                    if pick == Some(g.members[m]) {
                        Tri::Y
                    } else {
                        Tri::N
                    },
                )
            &&& forall|p: int|
                0 <= p < t.symbols.len() && (forall|m: int| k <= m < g.members.len() ==> place_of(t, #[trigger] g.members[m]) != p)
                    ==> #[trigger] n.vals[p] == o.vals[p]
        }),
    decreases g.members.len() - k,
{
    if k < g.members.len() {
        let step = member_next(t, w, g, visible, pick, g.members[k]);
        let p = place_of(t, g.members[k]);
        let o2 = put(o, p, step.0, step.1);
        same_place(t, g.members[k], g.members[k]);
        members_decided(t, w, o2, g, visible, pick, k + 1);
        let n = after_members(t, w, o, g, visible, pick, k);
        assert forall|m: int| k <= m < g.members.len() implies n.vals[place_of(t, #[trigger] g.members[m])]
            == super::Value::Tri(
            if pick == Some(g.members[m]) {
                Tri::Y
            } else {
                Tri::N
            },
        ) by {
            if m == k {
                same_place(t, g.members[k], g.members[k]);
                if exists|m2: int| k < m2 < g.members.len() && place_of(t, #[trigger] g.members[m2]) == p {
                    let m2 = choose|m2: int| k < m2 < g.members.len() && place_of(t, #[trigger] g.members[m2]) == p;
                    same_place(t, g.members[m2], g.members[k]);
                } else {
                    assert(n.vals[p] == o2.vals[p]);
                }
            }
        }
        assert forall|q: int|
            0 <= q < t.symbols.len() && (forall|m: int|
                k <= m < g.members.len() ==> place_of(t, #[trigger] g.members[m]) != q) implies #[trigger] n.vals[q]
            == o.vals[q] by {
            assert(place_of(t, g.members[k]) != q);
        }
    }
}

proof fn choices_keep(t: super::Table, w: Seq<Option<Wish>>, o: Outcome, g: super::Group, c: int, from: int)
    requires
        super::well_formed(t),
        fits(t, o),
        0 <= c < from,
        c < t.choices.len(),
        g == t.choices[c],
        one_on(t, o, g),
    ensures
        one_on(t, after_choices(t, w, o, from), g),
    decreases t.choices.len() - from,
{
    if from < t.choices.len() {
        let h = t.choices[from];
        assert(members_exist(t, h));
        assert(members_exist(t, g));
        let visible = holds(o.names, o.vals, h.depends);
        let pick = picked(t, w, o, h);
        members_decided(t, w, o, h, visible, pick, 0);
        members_keep_shape(t, w, o, h, visible, pick, 0);
        let n = after_choice(t, w, o, h);
        assert forall|a: int| 0 <= a < g.members.len() implies n.vals[place_of(t, #[trigger] g.members[a])]
            == o.vals[place_of(t, g.members[a])] by {
            let p = place_of(t, g.members[a]);
            same_place(t, g.members[a], g.members[a]);
            assert forall|m: int| 0 <= m < h.members.len() implies place_of(t, #[trigger] h.members[m]) != p by {
                same_place(t, h.members[m], h.members[m]);
                assert(t.symbols[place_of(t, g.members[a])].choice == Some(g.name));
                assert(t.symbols[place_of(t, h.members[m])].choice == Some(h.name));
                text::before_is_total(g.name, h.name);
                assert(text::before(t.choices[c].name, t.choices[from].name));
            }
            assert(n.vals[p] == o.vals[p]);
        }
        assert(one_on(t, n, g));
        choices_keep(t, w, n, g, c, from + 1);
    }
}

proof fn choices_decide(t: super::Table, w: Seq<Option<Wish>>, o: Outcome, c: int, from: int)
    requires
        super::well_formed(t),
        fits(t, o),
        0 <= from <= c < t.choices.len(),
    ensures
        one_on(t, after_choices(t, w, o, from), t.choices[c]),
    decreases t.choices.len() - from,
{
    let h = t.choices[from];
    assert(members_exist(t, h));
    let visible = holds(o.names, o.vals, h.depends);
    let pick = picked(t, w, o, h);
    members_decided(t, w, o, h, visible, pick, 0);
    members_keep_shape(t, w, o, h, visible, pick, 0);
    let n = after_choice(t, w, o, h);
    if from == c {
        assert(one_on(t, n, h)) by {
            assert forall|a: int, b: int|
                0 <= a < h.members.len() && 0 <= b < h.members.len() && super::truth(
                    n.vals[place_of(t, #[trigger] h.members[a])],
                ) != Tri::N && super::truth(n.vals[place_of(t, #[trigger] h.members[b])]) != Tri::N implies h.members[a]
                == h.members[b] by {
                assert(pick == Some(h.members[a]));
                assert(pick == Some(h.members[b]));
            }
        }
        choices_keep(t, w, n, h, c, from + 1);
    } else {
        choices_decide(t, w, n, c, from + 1);
    }
}

/// A choice has at most one member on.
pub proof fn choices_have_one_member(t: super::Table, asked: Seq<Ask>, c: int)
    requires
        super::well_formed(t),
        resolved(t, asked) is Ok,
        0 <= c < t.choices.len(),
    ensures
        one_on(t, resolved(t, asked)->Ok_0, t.choices[c]),
{
    let w = wishes(t, asked, asked.len());
    let before = settled_is_a_round(t, w, start(t), MAX_ROUNDS as nat);
    let sel = selectors(t, before.names, before.vals);
    symbols_keep_shape(t, w, sel, before, 0);
    choices_decide(t, w, after_symbols(t, w, sel, before, 0), c, 0);
}

/// What has been decided when it is the turn of the choice at `c`: every symbol, and every choice
/// before it.
pub open spec fn before_choice(t: super::Table, w: Seq<Option<Wish>>, o: Outcome, c: nat) -> Outcome
    decreases c,
{
    if c == 0 {
        after_symbols(t, w, selectors(t, o.names, o.vals), o, 0)
    } else {
        after_choice(t, w, before_choice(t, w, o, (c - 1) as nat), t.choices[c - 1])
    }
}

/// Whether a choice has something to pick: it is part of the build, and so is a member.
pub open spec fn offered(t: super::Table, o: Outcome, g: super::Group) -> bool {
    holds(o.names, o.vals, g.depends) && usable(t, o, g.members, g.members.len()).len() > 0
}

proof fn rounds_reach_choices(t: super::Table, w: Seq<Option<Wish>>, o: Outcome, c: nat)
    requires
        c <= t.choices.len(),
    ensures
        round(t, w, o) == after_choices(t, w, before_choice(t, w, o, c), c as int),
    decreases c,
{
    if c > 0 {
        rounds_reach_choices(t, w, o, (c - 1) as nat);
    }
}

proof fn before_choice_fits(t: super::Table, w: Seq<Option<Wish>>, o: Outcome, c: nat)
    requires
        super::well_formed(t),
        fits(t, o),
        c <= t.choices.len(),
    ensures
        fits(t, before_choice(t, w, o, c)),
    decreases c,
{
    if c == 0 {
        symbols_keep_shape(t, w, selectors(t, o.names, o.vals), o, 0);
    } else {
        before_choice_fits(t, w, o, (c - 1) as nat);
        let (b, g) = (before_choice(t, w, o, (c - 1) as nat), t.choices[c - 1]);
        assert(members_exist(t, g));
        members_keep_shape(t, w, b, g, holds(b.names, b.vals, g.depends), picked(t, w, b, g), 0);
    }
}

proof fn usable_is_listed(t: super::Table, o: Outcome, members: Seq<Seq<char>>, k: nat, m: Seq<char>)
    requires
        k <= members.len(),
        usable(t, o, members, k).contains(m),
    ensures
        members.contains(m),
    decreases k,
{
    if k > 0 {
        let before = usable(t, o, members, (k - 1) as nat);
        if before.contains(m) {
            usable_is_listed(t, o, members, (k - 1) as nat, m);
        } else {
            assert(members[k - 1] == m);
        }
    }
}

proof fn first_asked_is_listed(t: super::Table, w: Seq<Option<Wish>>, us: Seq<Seq<char>>, i: int)
    requires
        first_asked(t, w, us, i) is Some,
    ensures
        us.contains(first_asked(t, w, us, i)->0),
    decreases us.len() - i,
{
    if !asked_on(t, w, us[i]) {
        first_asked_is_listed(t, w, us, i + 1);
    }
}

proof fn first_offered_is_listed(d: Seq<super::Fallback>, us: Seq<Seq<char>>, o: Outcome, j: int)
    requires
        first_offered(d, us, o, j) is Some,
    ensures
        us.contains(first_offered(d, us, o, j)->0),
    decreases d.len() - j,
{
    if !(holds(o.names, o.vals, d[j].cond) && d[j].value is Str && us.contains(d[j].value->Str_0)) {
        first_offered_is_listed(d, us, o, j + 1);
    }
}

proof fn picks_are_members(t: super::Table, w: Seq<Option<Wish>>, o: Outcome, g: super::Group)
    ensures
        picked(t, w, o, g) is Some <==> offered(t, o, g),
        picked(t, w, o, g) is Some ==> g.members.contains(picked(t, w, o, g)->0),
{
    let us = usable(t, o, g.members, g.members.len());
    if let Some(m) = picked(t, w, o, g) {
        if first_asked(t, w, us, 0) is Some {
            first_asked_is_listed(t, w, us, 0);
        } else if first_offered(g.defaults, us, o, 0) is Some {
            first_offered_is_listed(g.defaults, us, o, 0);
        } else {
            assert(us[0] == m);
        }
        assert(us.contains(m));
        usable_is_listed(t, o, g.members, g.members.len(), m);
    }
}

proof fn later_choices_keep(t: super::Table, w: Seq<Option<Wish>>, o: Outcome, c: int, from: int, a: int)
    requires
        super::well_formed(t),
        fits(t, o),
        0 <= c < from,
        c < t.choices.len(),
        0 <= a < t.choices[c].members.len(),
    ensures
        ({
            let p = place_of(t, t.choices[c].members[a]);
            after_choices(t, w, o, from).vals[p] == o.vals[p]
        }),
    decreases t.choices.len() - from,
{
    if from < t.choices.len() {
        let (g, h) = (t.choices[c], t.choices[from]);
        assert(members_exist(t, h));
        assert(members_exist(t, g));
        let visible = holds(o.names, o.vals, h.depends);
        let pick = picked(t, w, o, h);
        members_decided(t, w, o, h, visible, pick, 0);
        members_keep_shape(t, w, o, h, visible, pick, 0);
        let n = after_choice(t, w, o, h);
        let p = place_of(t, g.members[a]);
        same_place(t, g.members[a], g.members[a]);
        assert forall|m: int| 0 <= m < h.members.len() implies place_of(t, #[trigger] h.members[m]) != p by {
            same_place(t, h.members[m], h.members[m]);
            assert(t.symbols[place_of(t, g.members[a])].choice == Some(g.name));
            assert(t.symbols[place_of(t, h.members[m])].choice == Some(h.name));
            text::before_is_total(g.name, h.name);
            assert(text::before(t.choices[c].name, t.choices[from].name));
        }
        assert(n.vals[p] == o.vals[p]);
        later_choices_keep(t, w, n, c, from + 1, a);
    }
}

/// A choice that has something to pick, when it is its turn, has exactly one member on: the one
/// that was asked for, else the one that a default names, else the first that can be. One that has
/// nothing to pick has none on.
pub proof fn choices_pick_exactly_one(t: super::Table, asked: Seq<Ask>, c: int)
    requires
        super::well_formed(t),
        resolved(t, asked) is Ok,
        0 <= c < t.choices.len(),
    ensures
        ({
            let w = wishes(t, asked, asked.len());
            let o = resolved(t, asked)->Ok_0;
            let g = t.choices[c];
            let turn = before_choice(t, w, o, c as nat);
            &&& picked(t, w, turn, g) is Some <==> offered(t, turn, g)
            &&& picked(t, w, turn, g) is Some ==> g.members.contains(picked(t, w, turn, g)->0)
            &&& forall|m: int|
                0 <= m < g.members.len() ==> o.vals[place_of(t, #[trigger] g.members[m])] == super::Value::Tri(
                    if picked(t, w, turn, g) == Some(g.members[m]) {
                        Tri::Y
                    } else {
                        Tri::N
                    },
                )
        }),
{
    let w = wishes(t, asked, asked.len());
    let o = resolved(t, asked)->Ok_0;
    let g = t.choices[c];
    every_symbol_is_decided(t, asked);
    resolution_is_at_rest(t, asked);
    before_choice_fits(t, w, o, c as nat);
    let turn = before_choice(t, w, o, c as nat);
    rounds_reach_choices(t, w, o, (c + 1) as nat);
    picks_are_members(t, w, turn, g);
    assert(members_exist(t, g));
    let (visible, pick) = (holds(turn.names, turn.vals, g.depends), picked(t, w, turn, g));
    members_decided(t, w, turn, g, visible, pick, 0);
    members_keep_shape(t, w, turn, g, visible, pick, 0);
    let n = after_choice(t, w, turn, g);
    assert(before_choice(t, w, o, (c + 1) as nat) == n);
    assert forall|m: int| 0 <= m < g.members.len() implies o.vals[place_of(t, #[trigger] g.members[m])]
        == super::Value::Tri(
        if pick == Some(g.members[m]) {
            Tri::Y
        } else {
            Tri::N
        },
    ) by {
        later_choices_keep(t, w, n, c, c + 1, m);
    }
}

/// What has been decided when it is the turn of the symbol at `i`: every symbol before it.
pub open spec fn before_symbol(t: super::Table, w: Seq<Option<Wish>>, o: Outcome, i: nat) -> Outcome
    decreases i,
{
    if i == 0 {
        o
    } else {
        let before = before_symbol(t, w, o, (i - 1) as nat);
        match next_for(t, w, selectors(t, o.names, o.vals), before, i - 1) {
            Some((v, c)) => put(before, i - 1, v, c),
            None => before,
        }
    }
}

proof fn rounds_reach_symbols(t: super::Table, w: Seq<Option<Wish>>, o: Outcome, i: nat)
    requires
        fits(t, o),
        i <= t.symbols.len(),
    ensures
        fits(t, before_symbol(t, w, o, i)),
        after_symbols(t, w, selectors(t, o.names, o.vals), o, 0) == after_symbols(
            t,
            w,
            selectors(t, o.names, o.vals),
            before_symbol(t, w, o, i),
            i as int,
        ),
    decreases i,
{
    if i > 0 {
        rounds_reach_symbols(t, w, o, (i - 1) as nat);
    }
}

proof fn later_symbols_keep(
    t: super::Table,
    w: Seq<Option<Wish>>,
    sel: Seq<Option<Seq<char>>>,
    o: Outcome,
    i: int,
    from: int,
)
    requires
        fits(t, o),
        0 <= i < from,
        i < t.symbols.len(),
    ensures
        after_symbols(t, w, sel, o, from).vals[i] == o.vals[i],
        after_symbols(t, w, sel, o, from).causes[i] == o.causes[i],
    decreases t.symbols.len() - from,
{
    if from < t.symbols.len() {
        match next_for(t, w, sel, o, from) {
            Some((v, c)) => later_symbols_keep(t, w, sel, put(o, from, v, c), i, from + 1),
            None => later_symbols_keep(t, w, sel, o, i, from + 1),
        }
    }
}

proof fn members_keep_other_reasons(
    t: super::Table,
    w: Seq<Option<Wish>>,
    o: Outcome,
    g: super::Group,
    visible: bool,
    pick: Option<Seq<char>>,
    k: int,
    p: int,
)
    requires
        fits(t, o),
        members_exist(t, g),
        0 <= k,
        0 <= p < t.symbols.len(),
        forall|m: int| k <= m < g.members.len() ==> place_of(t, #[trigger] g.members[m]) != p,
    ensures
        after_members(t, w, o, g, visible, pick, k).causes[p] == o.causes[p],
    decreases g.members.len() - k,
{
    if k < g.members.len() {
        let n = member_next(t, w, g, visible, pick, g.members[k]);
        let q = place_of(t, g.members[k]);
        same_place(t, g.members[k], g.members[k]);
        assert(q != p);
        members_keep_other_reasons(t, w, put(o, q, n.0, n.1), g, visible, pick, k + 1, p);
    }
}

proof fn choices_keep_others(t: super::Table, w: Seq<Option<Wish>>, o: Outcome, from: int, i: int)
    requires
        super::well_formed(t),
        fits(t, o),
        0 <= from,
        0 <= i < t.symbols.len(),
        t.symbols[i].choice is None,
    ensures
        after_choices(t, w, o, from).vals[i] == o.vals[i],
        after_choices(t, w, o, from).causes[i] == o.causes[i],
    decreases t.choices.len() - from,
{
    if from < t.choices.len() {
        let h = t.choices[from];
        assert(members_exist(t, h));
        let visible = holds(o.names, o.vals, h.depends);
        let pick = picked(t, w, o, h);
        members_decided(t, w, o, h, visible, pick, 0);
        members_keep_shape(t, w, o, h, visible, pick, 0);
        assert forall|m: int| 0 <= m < h.members.len() implies place_of(t, #[trigger] h.members[m]) != i by {
            same_place(t, h.members[m], h.members[m]);
            assert(t.symbols[place_of(t, h.members[m])].choice == Some(h.name));
        }
        members_keep_other_reasons(t, w, o, h, visible, pick, 0, i);
        choices_keep_others(t, w, after_choice(t, w, o, h), from + 1, i);
    }
}

/// Every symbol outside a choice holds what its rule makes it when it is its turn: off where its
/// dependencies are not met, else what was asked of it, else on where another selects it, else its
/// first default whose condition holds, else off.
pub proof fn symbols_follow_their_rules(t: super::Table, asked: Seq<Ask>, i: int)
    requires
        super::well_formed(t),
        resolved(t, asked) is Ok,
        0 <= i < t.symbols.len(),
        t.symbols[i].choice is None,
    ensures
        ({
            let w = wishes(t, asked, asked.len());
            let o = resolved(t, asked)->Ok_0;
            let turn = before_symbol(t, w, o, i as nat);
            let by = selector(t, o.names, o.vals, t.symbols[i].name, 0);
            o.vals[i] == if !holds(turn.names, turn.vals, t.symbols[i].depends) {
                super::zero(t.symbols[i].kind)
            } else if w[i] is Some {
                w[i]->0.value
            } else if by is Some {
                super::Value::Tri(Tri::Y)
            } else {
                match first_default(t.symbols[i].defaults, turn, 0) {
                    Some(v) => v,
                    None => super::zero(t.symbols[i].kind),
                }
            }
        }),
{
    let w = wishes(t, asked, asked.len());
    let o = resolved(t, asked)->Ok_0;
    let sel = selectors(t, o.names, o.vals);
    every_symbol_is_decided(t, asked);
    resolution_is_at_rest(t, asked);
    rounds_reach_symbols(t, w, o, i as nat);
    rounds_reach_symbols(t, w, o, (i + 1) as nat);
    let next = before_symbol(t, w, o, (i + 1) as nat);
    later_symbols_keep(t, w, sel, next, i, i + 1);
    symbols_keep_shape(t, w, sel, o, 0);
    choices_keep_others(t, w, after_symbols(t, w, sel, o, 0), 0, i);
}

/// Whether every member of a choice whose own dependencies are not met has nothing but the zero of
/// its kind. One that depends on its own absence has more: it is off while it is decided, and so it
/// is switched on.
pub open spec fn members_rest(t: super::Table, o: Outcome) -> bool {
    forall|i: int|
        0 <= i < t.symbols.len() && (#[trigger] t.symbols[i]).choice is Some && !holds(
            o.names,
            o.vals,
            t.symbols[i].depends,
        ) ==> o.vals[i] == super::zero(t.symbols[i].kind)
}

proof fn symbols_see_the_outcome(t: super::Table, w: Seq<Option<Wish>>, o: Outcome, i: nat)
    requires
        super::well_formed(t),
        fits(t, o),
        round(t, w, o).vals == o.vals,
        members_rest(t, o),
        i <= t.symbols.len(),
    ensures
        fits(t, before_symbol(t, w, o, i)),
        before_symbol(t, w, o, i).vals == o.vals,
    decreases i,
{
    rounds_reach_symbols(t, w, o, i);
    if i > 0 {
        let k = i - 1;
        let sel = selectors(t, o.names, o.vals);
        symbols_see_the_outcome(t, w, o, k as nat);
        let before = before_symbol(t, w, o, k as nat);
        let now = before_symbol(t, w, o, i);
        if t.symbols[k].choice is None {
            later_symbols_keep(t, w, sel, now, k, k + 1);
            symbols_keep_shape(t, w, sel, o, 0);
            choices_keep_others(t, w, after_symbols(t, w, sel, o, 0), 0, k);
            assert(now.vals[k] == o.vals[k]);
        }
        assert(now.vals =~= o.vals);
    }
}

proof fn choices_see_the_outcome(t: super::Table, w: Seq<Option<Wish>>, o: Outcome, c: nat)
    requires
        super::well_formed(t),
        fits(t, o),
        round(t, w, o).vals == o.vals,
        members_rest(t, o),
        c <= t.choices.len(),
    ensures
        fits(t, before_choice(t, w, o, c)),
        before_choice(t, w, o, c).vals == o.vals,
    decreases c,
{
    before_choice_fits(t, w, o, c);
    if c == 0 {
        symbols_see_the_outcome(t, w, o, t.symbols.len());
        rounds_reach_symbols(t, w, o, t.symbols.len());
    } else {
        let k = c - 1;
        choices_see_the_outcome(t, w, o, k as nat);
        rounds_reach_choices(t, w, o, c);
        let turn = before_choice(t, w, o, k as nat);
        let g = t.choices[k];
        let now = before_choice(t, w, o, c);
        assert(members_exist(t, g));
        members_decided(t, w, turn, g, holds(turn.names, turn.vals, g.depends), picked(t, w, turn, g), 0);
        assert forall|p: int| 0 <= p < t.symbols.len() implies #[trigger] now.vals[p] == o.vals[p] by {
            if exists|m: int| 0 <= m < g.members.len() && place_of(t, #[trigger] g.members[m]) == p {
                let m = choose|m: int| 0 <= m < g.members.len() && place_of(t, #[trigger] g.members[m]) == p;
                later_choices_keep(t, w, now, k, k + 1, m);
            }
        }
        assert(now.vals =~= o.vals);
    }
}

proof fn same_defaults(d: Seq<super::Fallback>, a: Outcome, b: Outcome, j: int)
    requires
        a.names == b.names,
        a.vals == b.vals,
    ensures
        first_default(d, a, j) == first_default(d, b, j),
    decreases d.len() - j,
{
    if 0 <= j < d.len() {
        same_defaults(d, a, b, j + 1);
    }
}

proof fn same_offers(d: Seq<super::Fallback>, us: Seq<Seq<char>>, a: Outcome, b: Outcome, j: int)
    requires
        a.names == b.names,
        a.vals == b.vals,
    ensures
        first_offered(d, us, a, j) == first_offered(d, us, b, j),
    decreases d.len() - j,
{
    if 0 <= j < d.len() {
        same_offers(d, us, a, b, j + 1);
    }
}

proof fn same_usable(t: super::Table, a: Outcome, b: Outcome, members: Seq<Seq<char>>, k: nat)
    requires
        a.names == b.names,
        a.vals == b.vals,
    ensures
        usable(t, a, members, k) == usable(t, b, members, k),
    decreases k,
{
    if k > 0 {
        same_usable(t, a, b, members, (k - 1) as nat);
    }
}

/// Every symbol outside a choice holds what its rule makes of the configuration itself: off where
/// its dependencies are not met in it, else what was asked of it, else on where another selects it,
/// else its first default whose condition holds, else off.
pub proof fn symbols_follow_their_rules_in_the_end(t: super::Table, asked: Seq<Ask>, i: int)
    requires
        super::well_formed(t),
        resolved(t, asked) is Ok,
        members_rest(t, resolved(t, asked)->Ok_0),
        0 <= i < t.symbols.len(),
        t.symbols[i].choice is None,
    ensures
        ({
            let w = wishes(t, asked, asked.len());
            let o = resolved(t, asked)->Ok_0;
            o.vals[i] == if !holds(o.names, o.vals, t.symbols[i].depends) {
                super::zero(t.symbols[i].kind)
            } else if w[i] is Some {
                w[i]->0.value
            } else if selector(t, o.names, o.vals, t.symbols[i].name, 0) is Some {
                super::Value::Tri(Tri::Y)
            } else {
                match first_default(t.symbols[i].defaults, o, 0) {
                    Some(v) => v,
                    None => super::zero(t.symbols[i].kind),
                }
            }
        }),
{
    let w = wishes(t, asked, asked.len());
    let o = resolved(t, asked)->Ok_0;
    every_symbol_is_decided(t, asked);
    resolution_is_at_rest(t, asked);
    symbols_see_the_outcome(t, w, o, i as nat);
    same_defaults(t.symbols[i].defaults, before_symbol(t, w, o, i as nat), o, 0);
    symbols_follow_their_rules(t, asked, i);
}

/// A choice that has something to pick in the configuration itself has exactly one member on: the
/// one that was asked for, else the one that a default names, else the first that can be. One that
/// has nothing to pick has none on.
pub proof fn choices_pick_exactly_one_in_the_end(t: super::Table, asked: Seq<Ask>, c: int)
    requires
        super::well_formed(t),
        resolved(t, asked) is Ok,
        members_rest(t, resolved(t, asked)->Ok_0),
        0 <= c < t.choices.len(),
    ensures
        ({
            let w = wishes(t, asked, asked.len());
            let o = resolved(t, asked)->Ok_0;
            let g = t.choices[c];
            &&& picked(t, w, o, g) is Some <==> offered(t, o, g)
            &&& picked(t, w, o, g) is Some ==> g.members.contains(picked(t, w, o, g)->0)
            &&& forall|m: int|
                0 <= m < g.members.len() ==> o.vals[place_of(t, #[trigger] g.members[m])] == super::Value::Tri(
                    if picked(t, w, o, g) == Some(g.members[m]) {
                        Tri::Y
                    } else {
                        Tri::N
                    },
                )
        }),
{
    let w = wishes(t, asked, asked.len());
    let o = resolved(t, asked)->Ok_0;
    let g = t.choices[c];
    every_symbol_is_decided(t, asked);
    resolution_is_at_rest(t, asked);
    choices_see_the_outcome(t, w, o, c as nat);
    let turn = before_choice(t, w, o, c as nat);
    same_usable(t, turn, o, g.members, g.members.len());
    same_offers(g.defaults, usable(t, o, g.members, g.members.len()), turn, o, 0);
    choices_pick_exactly_one(t, asked, c);
}

/// The reason that is recorded for a symbol outside every choice is the one that decided it in the
/// configuration itself.
pub proof fn symbols_give_their_reasons(t: super::Table, asked: Seq<Ask>, i: int)
    requires
        super::well_formed(t),
        resolved(t, asked) is Ok,
        members_rest(t, resolved(t, asked)->Ok_0),
        0 <= i < t.symbols.len(),
        t.symbols[i].choice is None,
    ensures
        ({
            let w = wishes(t, asked, asked.len());
            let o = resolved(t, asked)->Ok_0;
            let by = selector(t, o.names, o.vals, t.symbols[i].name, 0);
            o.causes[i] == if !holds(o.names, o.vals, t.symbols[i].depends) {
                Cause::DependsUnmet(expr::shown(t.symbols[i].depends->0))
            } else if w[i] is Some {
                Cause::Explicit(w[i]->0.source)
            } else if by is Some {
                Cause::SelectedBy(by->0)
            } else if first_default(t.symbols[i].defaults, o, 0) is Some {
                Cause::Default
            } else {
                Cause::Unset
            }
        }),
{
    let w = wishes(t, asked, asked.len());
    let o = resolved(t, asked)->Ok_0;
    let before = settled_is_a_round(t, w, start(t), MAX_ROUNDS as nat);
    let sel = selectors(t, before.names, before.vals);
    symbols_see_the_outcome(t, w, before, i as nat);
    rounds_reach_symbols(t, w, before, i as nat);
    rounds_reach_symbols(t, w, before, (i + 1) as nat);
    same_defaults(t.symbols[i].defaults, before_symbol(t, w, before, i as nat), o, 0);
    let next = before_symbol(t, w, before, (i + 1) as nat);
    later_symbols_keep(t, w, sel, next, i, i + 1);
    symbols_keep_shape(t, w, sel, before, 0);
    choices_keep_others(t, w, after_symbols(t, w, sel, before, 0), 0, i);
}

} // verus!
