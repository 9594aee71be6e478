//! Ordering a graph so that what a node depends on comes before it.
//!
//! Nodes are numbered, and each lists the numbers it depends on. They are taken in turn, each
//! after what it depends on; a node that turns out to depend on itself ends the search.

use vstd::prelude::*;

verus! {

/// A graph: for each node, what it depends on.
pub type Links = Seq<Seq<int>>;

/// Whether every link leads to a node.
pub open spec fn closed_graph(g: Links) -> bool {
    forall|i: int, k: int| 0 <= i < g.len() && 0 <= k < g[i].len() ==> 0 <= #[trigger] g[i][k] < g.len()
}

/// Where `i` stands in a path, from `at` on, or its end.
pub open spec fn place_in(path: Seq<int>, i: int, at: int) -> int
    decreases path.len() - at,
{
    if at >= path.len() || path[at] == i {
        at
    } else {
        place_in(path, i, at + 1)
    }
}

/// The cycle that a path closes when it comes back to `i`.
pub open spec fn cycle(path: Seq<int>, i: int) -> Seq<int> {
    path.subrange(place_in(path, i, 0), path.len() as int).push(i)
}

/// What is ordered once `i` is, behind what is ordered already, or the cycle that was met. `path`
/// leads from where the search began to what depends on `i`.
pub open spec fn visited(g: Links, out: Seq<int>, path: Seq<int>, i: int) -> Result<Seq<int>, Seq<int>>
    decreases g.len() - path.len(), 0int,
{
    if out.contains(i) {
        Ok(out)
    } else if path.contains(i) {
        Err(cycle(path, i))
    } else if path.len() >= g.len() {
        Ok(out)
    } else {
        match visited_all(g, out, path.push(i), g[i], 0) {
            Ok(before) => Ok(before.push(i)),
            Err(c) => Err(c),
        }
    }
}

/// What is ordered once everything in `list` from `k` on is.
pub open spec fn visited_all(g: Links, out: Seq<int>, path: Seq<int>, list: Seq<int>, k: int) -> Result<
    Seq<int>,
    Seq<int>,
>
    decreases g.len() - path.len(), list.len() - k + 1,
{
    if k < 0 || k >= list.len() {
        Ok(out)
    } else {
        match visited(g, out, path, list[k]) {
            Ok(next) => visited_all(g, next, path, list, k + 1),
            Err(c) => Err(c),
        }
    }
}

/// The nodes in order, from `i` on, behind those in `out`.
pub open spec fn ordered_from(g: Links, out: Seq<int>, i: int) -> Result<Seq<int>, Seq<int>>
    decreases g.len() - i,
{
    if i < 0 || i >= g.len() {
        Ok(out)
    } else {
        match visited(g, out, seq![], i) {
            Ok(next) => ordered_from(g, next, i + 1),
            Err(c) => Err(c),
        }
    }
}

/// The nodes of a graph in order, or a cycle.
pub open spec fn ordered(g: Links) -> Result<Seq<int>, Seq<int>> {
    ordered_from(g, seq![], 0)
}

/// Numbers without bounds.
pub open spec fn numbers(v: Seq<usize>) -> Seq<int> {
    v.map_values(|x: usize| x as int)
}

/// The graph that a list of lists of numbers is.
pub open spec fn links_of(v: Seq<Vec<usize>>) -> Links {
    v.map_values(|l: Vec<usize>| numbers(l@))
}

/// Whether the numbers are all nodes, each once.
pub open spec fn distinct_nodes(g: Links, s: Seq<int>) -> bool {
    &&& s.no_duplicates()
    &&& forall|k: int| 0 <= k < s.len() ==> 0 <= #[trigger] s[k] < g.len()
}

/// Whether what is ordered is in order: each node after everything it depends on.
pub open spec fn in_order(g: Links, out: Seq<int>) -> bool {
    forall|k: int, d: int|
        0 <= k < out.len() && 0 <= d < g[out[k]].len() ==> out.subrange(0, k).contains(#[trigger] g[out[k]][d])
}

/// Whether no number stands in both.
pub open spec fn apart(a: Seq<int>, b: Seq<int>) -> bool {
    forall|i: int| 0 <= i < a.len() ==> !b.contains(#[trigger] a[i])
}

proof fn pigeons(g: Links, path: Seq<int>, i: int)
    requires
        distinct_nodes(g, path),
        0 <= i < g.len(),
        !path.contains(i),
    ensures
        path.len() < g.len(),
        distinct_nodes(g, path.push(i)),
{
    let more = path.push(i);
    assert forall|a: int, b: int| 0 <= a < more.len() && 0 <= b < more.len() && a != b implies more[a] != more[b] by {
        if a == path.len() {
            assert(path.contains(path[b]));
        } else if b == path.len() {
            assert(path.contains(path[a]));
        }
    }
    more.unique_seq_to_set();
    let all = vstd::set_lib::set_int_range(0, g.len() as int);
    vstd::set_lib::lemma_int_range(0, g.len() as int);
    assert(more.to_set().subset_of(all)) by {
        assert forall|x: int| more.to_set().contains(x) implies all.contains(x) by {
            let k = choose|k: int| 0 <= k < more.len() && more[k] == x;
            assert(0 <= more[k] < g.len());
        }
    }
    vstd::set_lib::lemma_len_subset(more.to_set(), all);
}

/// What holds of what is ordered behind `out`: it begins with `out`, and keeps what was said of it.
pub open spec fn grown(g: Links, out: Seq<int>, path: Seq<int>, more: Seq<int>) -> bool {
    &&& out.len() <= more.len()
    &&& more.subrange(0, out.len() as int) == out
    &&& distinct_nodes(g, more)
    &&& in_order(g, more)
    &&& apart(more, path)
}

proof fn visit_grows(g: Links, out: Seq<int>, path: Seq<int>, i: int)
    requires
        closed_graph(g),
        distinct_nodes(g, out),
        in_order(g, out),
        distinct_nodes(g, path),
        apart(out, path),
        0 <= i < g.len(),
    ensures
        visited(g, out, path, i) is Ok ==> grown(g, out, path, visited(g, out, path, i)->Ok_0) && visited(
            g,
            out,
            path,
            i,
        )->Ok_0.contains(i),
    decreases g.len() - path.len(), 0int,
{
    if out.contains(i) {
        assert(out.subrange(0, out.len() as int) =~= out);
    } else if !path.contains(i) {
        pigeons(g, path, i);
        let deeper = path.push(i);
        assert(apart(out, deeper)) by {
            assert forall|k: int| 0 <= k < out.len() implies !deeper.contains(#[trigger] out[k]) by {
                if deeper.contains(out[k]) {
                    let j = choose|j: int| 0 <= j < deeper.len() && deeper[j] == out[k];
                    if j < path.len() {
                        assert(path.contains(out[k]));
                    } else {
                        assert(out.contains(i));
                    }
                }
            }
        }
        visit_all_grows(g, out, deeper, g[i], 0);
        if visited_all(g, out, deeper, g[i], 0) is Ok {
            let before = visited_all(g, out, deeper, g[i], 0)->Ok_0;
            let more = before.push(i);
            assert(deeper[path.len() as int] == i);
            assert(!before.contains(i)) by {
                if before.contains(i) {
                    let j = choose|j: int| 0 <= j < before.len() && before[j] == i;
                    assert(!deeper.contains(before[j]));
                }
            }
            assert(more.subrange(0, out.len() as int) =~= before.subrange(0, out.len() as int));
            assert forall|a: int, b: int|
                0 <= a < more.len() && 0 <= b < more.len() && a != b implies more[a] != more[b] by {
                if a == before.len() {
                    assert(before.contains(before[b]));
                } else if b == before.len() {
                    assert(before.contains(before[a]));
                }
            }
            assert forall|k: int, d: int|
                0 <= k < more.len() && 0 <= d < g[more[k]].len() implies more.subrange(0, k).contains(
                #[trigger] g[more[k]][d],
            ) by {
                assert(more.subrange(0, k) =~= before.subrange(0, k));
                if k < before.len() {
                    assert(before.subrange(0, k).contains(g[before[k]][d]));
                } else {
                    assert(before.subrange(0, k) =~= before);
                    assert(before.contains(g[i][d]));
                }
            }
            assert forall|k: int| 0 <= k < more.len() implies !path.contains(#[trigger] more[k]) by {
                if k < before.len() {
                    assert(!deeper.contains(before[k]));
                    if path.contains(before[k]) {
                        let j = choose|j: int| 0 <= j < path.len() && path[j] == before[k];
                        assert(deeper[j] == before[k]);
                    }
                }
            }
            assert(more[before.len() as int] == i);
        }
    }
}

proof fn visit_all_grows(g: Links, out: Seq<int>, path: Seq<int>, list: Seq<int>, k: int)
    requires
        closed_graph(g),
        distinct_nodes(g, out),
        in_order(g, out),
        distinct_nodes(g, path),
        apart(out, path),
        0 <= k <= list.len(),
        forall|j: int| 0 <= j < list.len() ==> 0 <= #[trigger] list[j] < g.len(),
    ensures
        visited_all(g, out, path, list, k) is Ok ==> grown(g, out, path, visited_all(g, out, path, list, k)->Ok_0) && (
        forall|j: int| k <= j < list.len() ==> visited_all(g, out, path, list, k)->Ok_0.contains(#[trigger] list[j])),
    decreases g.len() - path.len(), list.len() - k + 1,
{
    assert(out.subrange(0, out.len() as int) =~= out);
    if k < list.len() {
        visit_grows(g, out, path, list[k]);
        if visited(g, out, path, list[k]) is Ok {
            let next = visited(g, out, path, list[k])->Ok_0;
            visit_all_grows(g, next, path, list, k + 1);
            if visited_all(g, next, path, list, k + 1) is Ok {
                let more = visited_all(g, next, path, list, k + 1)->Ok_0;
                assert(more.subrange(0, out.len() as int) =~= more.subrange(0, next.len() as int).subrange(
                    0,
                    out.len() as int,
                ));
                assert forall|j: int| k <= j < list.len() implies more.contains(#[trigger] list[j]) by {
                    if j == k {
                        let p = choose|p: int| 0 <= p < next.len() && next[p] == list[k];
                        assert(more.subrange(0, next.len() as int)[p] == next[p]);
                        assert(more[p] == list[k]);
                    }
                }
            }
        }
    }
}

proof fn order_grows(g: Links, out: Seq<int>, i: int)
    requires
        closed_graph(g),
        distinct_nodes(g, out),
        in_order(g, out),
        0 <= i <= g.len(),
    ensures
        ordered_from(g, out, i) is Ok ==> grown(g, out, seq![], ordered_from(g, out, i)->Ok_0) && (forall|j: int|
            i <= j < g.len() ==> #[trigger] ordered_from(g, out, i)->Ok_0.contains(j)),
    decreases g.len() - i,
{
    assert(out.subrange(0, out.len() as int) =~= out);
    if i < g.len() {
        visit_grows(g, out, seq![], i);
        if visited(g, out, seq![], i) is Ok {
            let next = visited(g, out, seq![], i)->Ok_0;
            order_grows(g, next, i + 1);
            if ordered_from(g, next, i + 1) is Ok {
                let more = ordered_from(g, next, i + 1)->Ok_0;
                assert(more.subrange(0, out.len() as int) =~= more.subrange(0, next.len() as int).subrange(
                    0,
                    out.len() as int,
                ));
                assert forall|j: int| i <= j < g.len() implies #[trigger] more.contains(j) by {
                    if j == i {
                        let p = choose|p: int| 0 <= p < next.len() && next[p] == i;
                        assert(more.subrange(0, next.len() as int)[p] == next[p]);
                        assert(more[p] == i);
                    }
                }
            }
        }
    }
}

/// An ordered graph holds every node once, each after everything it depends on.
pub proof fn ordered_graphs_are_in_order(g: Links)
    requires
        closed_graph(g),
        ordered(g) is Ok,
    ensures
        distinct_nodes(g, ordered(g)->Ok_0),
        in_order(g, ordered(g)->Ok_0),
        forall|i: int| 0 <= i < g.len() ==> #[trigger] ordered(g)->Ok_0.contains(i),
        ordered(g)->Ok_0.len() == g.len(),
{
    order_grows(g, seq![], 0);
    let out = ordered(g)->Ok_0;
    out.unique_seq_to_set();
    let all = vstd::set_lib::set_int_range(0, g.len() as int);
    vstd::set_lib::lemma_int_range(0, g.len() as int);
    assert(out.to_set() =~= all) by {
        assert forall|x: int| out.to_set().contains(x) implies all.contains(x) by {
            let k = choose|k: int| 0 <= k < out.len() && out[k] == x;
            assert(0 <= out[k] < g.len());
        }
    }
}

/// Whether `depth` gives every node a number above those of everything it depends on. There is
/// such a numbering exactly where no node depends on itself, directly or not.
pub open spec fn acyclic_by(g: Links, depth: spec_fn(int) -> nat) -> bool {
    forall|i: int, k: int| 0 <= i < g.len() && 0 <= k < g[i].len() ==> depth(#[trigger] g[i][k]) < depth(i)
}

/// A graph without a cycle is always ordered.
pub proof fn acyclic_graphs_are_ordered(g: Links, depth: spec_fn(int) -> nat)
    requires
        closed_graph(g),
        acyclic_by(g, depth),
    ensures
        ordered(g) is Ok,
{
    order_succeeds(g, depth, seq![], 0);
}

proof fn order_succeeds(g: Links, depth: spec_fn(int) -> nat, out: Seq<int>, i: int)
    requires
        closed_graph(g),
        acyclic_by(g, depth),
        0 <= i <= g.len(),
    ensures
        ordered_from(g, out, i) is Ok,
    decreases g.len() - i,
{
    if i < g.len() {
        visit_succeeds(g, depth, out, seq![], i);
        order_succeeds(g, depth, visited(g, out, seq![], i)->Ok_0, i + 1);
    }
}

proof fn visit_succeeds(g: Links, depth: spec_fn(int) -> nat, out: Seq<int>, path: Seq<int>, i: int)
    requires
        closed_graph(g),
        acyclic_by(g, depth),
        0 <= i < g.len(),
        forall|k: int| 0 <= k < path.len() ==> depth(i) < depth(#[trigger] path[k]),
    ensures
        visited(g, out, path, i) is Ok,
    decreases g.len() - path.len(), 0int,
{
    if !out.contains(i) && path.len() < g.len() {
        assert(!path.contains(i));
        visit_all_succeeds(g, depth, out, path.push(i), g[i], 0);
    } else if !out.contains(i) {
        assert(!path.contains(i));
    }
}

proof fn visit_all_succeeds(
    g: Links,
    depth: spec_fn(int) -> nat,
    out: Seq<int>,
    path: Seq<int>,
    list: Seq<int>,
    k: int,
)
    requires
        closed_graph(g),
        acyclic_by(g, depth),
        0 <= k <= list.len(),
        forall|j: int| 0 <= j < list.len() ==> 0 <= #[trigger] list[j] < g.len(),
        forall|j: int, p: int|
            0 <= j < list.len() && 0 <= p < path.len() ==> depth(#[trigger] list[j]) < depth(#[trigger] path[p]),
    ensures
        visited_all(g, out, path, list, k) is Ok,
    decreases g.len() - path.len(), list.len() - k + 1,
{
    if k < list.len() {
        visit_succeeds(g, depth, out, path, list[k]);
        visit_all_succeeds(g, depth, visited(g, out, path, list[k])->Ok_0, path, list, k + 1);
    }
}

/// A cycle is made of nodes.
pub proof fn cycles_hold_nodes(g: Links)
    requires
        closed_graph(g),
    ensures
        ordered(g) is Err ==> forall|k: int| 0 <= k < ordered(g)->Err_0.len() ==> 0 <= #[trigger] ordered(g)->Err_0[k]
            < g.len(),
{
    order_errs(g, seq![], 0);
}

proof fn order_errs(g: Links, out: Seq<int>, i: int)
    requires
        closed_graph(g),
        0 <= i <= g.len(),
    ensures
        ordered_from(g, out, i) is Err ==> forall|k: int|
            0 <= k < ordered_from(g, out, i)->Err_0.len() ==> 0 <= #[trigger] ordered_from(g, out, i)->Err_0[k] < g.len(),
    decreases g.len() - i,
{
    if i < g.len() {
        visit_errs(g, out, seq![], i);
        if visited(g, out, seq![], i) is Ok {
            order_errs(g, visited(g, out, seq![], i)->Ok_0, i + 1);
        }
    }
}

proof fn place_is_inside(path: Seq<int>, i: int, at: int)
    requires
        0 <= at <= path.len(),
    ensures
        at <= place_in(path, i, at) <= path.len(),
    decreases path.len() - at,
{
    if at < path.len() && path[at] != i {
        place_is_inside(path, i, at + 1);
    }
}

proof fn visit_errs(g: Links, out: Seq<int>, path: Seq<int>, i: int)
    requires
        closed_graph(g),
        0 <= i < g.len(),
        forall|k: int| 0 <= k < path.len() ==> 0 <= #[trigger] path[k] < g.len(),
    ensures
        visited(g, out, path, i) is Err ==> forall|k: int|
            0 <= k < visited(g, out, path, i)->Err_0.len() ==> 0 <= #[trigger] visited(g, out, path, i)->Err_0[k]
                < g.len(),
    decreases g.len() - path.len(), 0int,
{
    if !out.contains(i) {
        if path.contains(i) {
            place_is_inside(path, i, 0);
        } else if path.len() < g.len() {
            visit_all_errs(g, out, path.push(i), g[i], 0);
        }
    }
}

proof fn visit_all_errs(g: Links, out: Seq<int>, path: Seq<int>, list: Seq<int>, k: int)
    requires
        closed_graph(g),
        0 <= k <= list.len(),
        forall|j: int| 0 <= j < list.len() ==> 0 <= #[trigger] list[j] < g.len(),
        forall|j: int| 0 <= j < path.len() ==> 0 <= #[trigger] path[j] < g.len(),
    ensures
        visited_all(g, out, path, list, k) is Err ==> forall|j: int|
            0 <= j < visited_all(g, out, path, list, k)->Err_0.len() ==> 0 <= #[trigger] visited_all(
                g,
                out,
                path,
                list,
                k,
            )->Err_0[j] < g.len(),
    decreases g.len() - path.len(), list.len() - k + 1,
{
    if k < list.len() {
        visit_errs(g, out, path, list[k]);
        if visited(g, out, path, list[k]) is Ok {
            visit_all_errs(g, visited(g, out, path, list[k])->Ok_0, path, list, k + 1);
        }
    }
}

fn position(v: &Vec<usize>, i: usize) -> (r: Option<usize>)
    ensures
        match r {
            Some(at) => at == place_in(numbers(v@), i as int, 0) && at < v@.len() && numbers(v@).contains(i as int),
            None => !numbers(v@).contains(i as int),
        },
{
    let mut at: usize = 0;
    while at < v.len()
        invariant
            at <= v@.len(),
            place_in(numbers(v@), i as int, 0) == place_in(numbers(v@), i as int, at as int),
            forall|k: int| 0 <= k < at ==> #[trigger] numbers(v@)[k] != i,
        decreases v@.len() - at,
    {
        assert(numbers(v@)[at as int] == v@[at as int]);
        if v[at] == i {
            return Some(at);
        }
        at += 1;
    }
    None
}

fn visit(links: &Vec<Vec<usize>>, out: &mut Vec<usize>, path: &mut Vec<usize>, i: usize) -> (r: Result<
    (),
    Vec<usize>,
>)
    requires
        closed_graph(links_of(links@)),
        distinct_nodes(links_of(links@), numbers(old(path)@)),
        i < links@.len(),
    ensures
        match r {
            Ok(_) => visited(links_of(links@), numbers(old(out)@), numbers(old(path)@), i as int) == Ok::<
                Seq<int>,
                Seq<int>,
            >(numbers(final(out)@)) && final(path)@ == old(path)@,
            Err(c) => visited(links_of(links@), numbers(old(out)@), numbers(old(path)@), i as int) == Err::<
                Seq<int>,
                Seq<int>,
            >(numbers(c@)),
        },
    decreases links@.len() - old(path)@.len(), 0int,
{
    let ghost g = links_of(links@);
    if position(out, i).is_some() {
        return Ok(());
    }
    match position(path, i) {
        Some(at) => {
            let mut c: Vec<usize> = Vec::new();
            let mut k: usize = at;
            assert(numbers(c@) =~= numbers(path@).subrange(at as int, at as int));
            while k < path.len()
                invariant
                    at <= k <= path@.len(),
                    numbers(c@) == numbers(path@).subrange(at as int, k as int),
                decreases path@.len() - k,
            {
                let ghost before = numbers(c@);
                c.push(path[k]);
                assert(numbers(c@) =~= before.push(numbers(path@)[k as int]));
                assert(numbers(path@).subrange(at as int, k + 1) =~= before.push(numbers(path@)[k as int]));
                k += 1;
            }
            let ghost before = numbers(c@);
            c.push(i);
            assert(numbers(c@) =~= before.push(i as int));
            Err(c)
        },
        None => {
            proof {
                pigeons(g, numbers(path@), i as int);
            }
            let ghost was = numbers(path@);
            path.push(i);
            assert(numbers(path@) =~= was.push(i as int));
            assert(g[i as int] == numbers(links@[i as int]@));
            assert forall|j: int| 0 <= j < links@[i as int]@.len() implies #[trigger] links@[i as int]@[j]
                < links@.len() by {
                assert(g[i as int][j] == links@[i as int]@[j]);
            }
            match visit_all(links, out, path, &links[i]) {
                Err(c) => Err(c),
                Ok(_) => {
                    let _ = path.pop();
                    assert(path@ =~= old(path)@);
                    let ghost before = numbers(out@);
                    out.push(i);
                    assert(numbers(out@) =~= before.push(i as int));
                    Ok(())
                },
            }
        },
    }
}

fn visit_all(links: &Vec<Vec<usize>>, out: &mut Vec<usize>, path: &mut Vec<usize>, list: &Vec<usize>) -> (r: Result<
    (),
    Vec<usize>,
>)
    requires
        closed_graph(links_of(links@)),
        distinct_nodes(links_of(links@), numbers(old(path)@)),
        forall|j: int| 0 <= j < list@.len() ==> #[trigger] list@[j] < links@.len(),
    ensures
        match r {
            Ok(_) => visited_all(links_of(links@), numbers(old(out)@), numbers(old(path)@), numbers(list@), 0) == Ok::<
                Seq<int>,
                Seq<int>,
            >(numbers(final(out)@)) && final(path)@ == old(path)@,
            Err(c) => visited_all(links_of(links@), numbers(old(out)@), numbers(old(path)@), numbers(list@), 0) == Err::<
                Seq<int>,
                Seq<int>,
            >(numbers(c@)),
        },
    decreases links@.len() - old(path)@.len(), 1int,
{
    let ghost g = links_of(links@);
    let ghost way = numbers(path@);
    let ghost all = visited_all(g, numbers(out@), way, numbers(list@), 0);
    let mut k: usize = 0;
    while k < list.len()
        invariant
            k <= list@.len(),
            g == links_of(links@),
            closed_graph(g),
            path@ == old(path)@,
            way == numbers(path@),
            distinct_nodes(g, way),
            forall|j: int| 0 <= j < list@.len() ==> #[trigger] list@[j] < links@.len(),
            all == visited_all(g, numbers(old(out)@), numbers(old(path)@), numbers(list@), 0),
            all == visited_all(g, numbers(out@), way, numbers(list@), k as int),
        decreases list@.len() - k,
    {
        assert(numbers(list@)[k as int] == list@[k as int]);
        match visit(links, out, path, list[k]) {
            Err(c) => {
                return Err(c);
            },
            Ok(_) => {},
        }
        k += 1;
    }
    Ok(())
}

/// The nodes of a graph, each after everything it depends on, or a cycle.
pub fn order(links: &Vec<Vec<usize>>) -> (r: Result<Vec<usize>, Vec<usize>>)
    requires
        closed_graph(links_of(links@)),
    ensures
        match r {
            Ok(out) => ordered(links_of(links@)) == Ok::<Seq<int>, Seq<int>>(numbers(out@)),
            Err(c) => ordered(links_of(links@)) == Err::<Seq<int>, Seq<int>>(numbers(c@)),
        },
{
    let ghost g = links_of(links@);
    let mut out: Vec<usize> = Vec::new();
    let mut i: usize = 0;
    assert(numbers(out@) =~= seq![]);
    while i < links.len()
        invariant
            i <= links@.len(),
            g == links_of(links@),
            closed_graph(g),
            ordered(g) == ordered_from(g, numbers(out@), i as int),
        decreases links@.len() - i,
    {
        let mut path: Vec<usize> = Vec::new();
        assert(numbers(path@) =~= seq![]);
        match visit(links, &mut out, &mut path, i) {
            Err(c) => {
                return Err(c);
            },
            Ok(_) => {},
        }
        i += 1;
    }
    Ok(out)
}

} // verus!
