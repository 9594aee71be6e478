//! The order of paths: part by part, so that a directory and what is below it stand together.

use vstd::prelude::*;

verus! {

/// Whether `a` comes before another character `b` in a path: the separator comes before every
/// other.
pub open spec fn earlier(a: char, b: char) -> bool {
    a == '/' || (b != '/' && (a as int) < b as int)
}

/// Whether path `a` comes before `b`, part by part.
pub open spec fn path_before(a: Seq<char>, b: Seq<char>) -> bool
    decreases a.len(),
{
    if b.len() == 0 {
        false
    } else if a.len() == 0 {
        true
    } else if a[0] != b[0] {
        earlier(a[0], b[0])
    } else {
        path_before(a.drop_first(), b.drop_first())
    }
}

fn is_earlier(a: char, b: char) -> (r: bool)
    requires
        a != b,
    ensures
        r == earlier(a, b),
{
    if a == '/' {
        true
    } else if b == '/' {
        false
    } else {
        a < b
    }
}

/// Whether path `a` comes before `b`.
pub fn path_comes_before(a: &[char], b: &[char]) -> (r: bool)
    ensures
        r == path_before(a@, b@),
{
    let mut i: usize = 0;
    assert(a@.subrange(0, a@.len() as int) =~= a@);
    assert(b@.subrange(0, b@.len() as int) =~= b@);
    while i < a.len() && i < b.len()
        invariant
            i <= a@.len(),
            i <= b@.len(),
            path_before(a@, b@) == path_before(
                a@.subrange(i as int, a@.len() as int),
                b@.subrange(i as int, b@.len() as int),
            ),
        decreases a@.len() - i,
    {
        proof {
            let p = a@.subrange(i as int, a@.len() as int);
            let q = b@.subrange(i as int, b@.len() as int);
            assert(p.drop_first() =~= a@.subrange(i + 1, a@.len() as int));
            assert(q.drop_first() =~= b@.subrange(i + 1, b@.len() as int));
        }
        if a[i] != b[i] {
            return is_earlier(a[i], b[i]);
        }
        i += 1;
    }
    i < b.len()
}

/// Of two different paths exactly one comes before the other.
pub proof fn path_order_is_total(a: Seq<char>, b: Seq<char>)
    ensures
        a == b ==> !path_before(a, b),
        a != b ==> path_before(a, b) == !path_before(b, a),
    decreases a.len(),
{
    if a.len() > 0 && b.len() > 0 && a[0] == b[0] {
        path_order_is_total(a.drop_first(), b.drop_first());
        if a.drop_first() == b.drop_first() {
            assert(a =~= seq![a[0]] + a.drop_first());
            assert(b =~= seq![b[0]] + b.drop_first());
        }
    } else if a.len() == 0 && b.len() == 0 {
        assert(a =~= b);
    }
}

/// The order of paths is transitive.
pub proof fn path_order_is_transitive(a: Seq<char>, b: Seq<char>, c: Seq<char>)
    requires
        path_before(a, b),
        path_before(b, c),
    ensures
        path_before(a, c),
    decreases a.len(),
{
    if a.len() > 0 && a[0] == b[0] && b[0] == c[0] {
        path_order_is_transitive(a.drop_first(), b.drop_first(), c.drop_first());
    }
}

} // verus!
