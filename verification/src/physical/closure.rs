//! The transitive closure of a set of items along a stream of edges.
use std::collections::VecDeque;
use vstd::prelude::*;

use crate::physical::merge::{equal_is_same, with_held};
use crate::physical::operator::{Batch, Buffered, Operator, CLOSURE_BATCH_SIZE};
use crate::physical::order::{compare_in, lemma_order_laws, order_compare, order_le, Comparison, Item, Order, Sense};

verus! {

/// `x` equals (in the natural order) some item of `seen`.
pub open spec fn seen_has<T: Item>(seen: Seq<T>, x: T) -> bool {
    exists|i: int| 0 <= i < seen.len() && (#[trigger] seen[i]).spec_compare(x) == Comparison::Equal
}

/// Reads `edges` up to the first that leads from a seen item to an unseen
/// one: its target, the edges after it, and `seen` with the target added;
/// no target, no edges and `seen` unchanged when there is none.
pub open spec fn find_edge<T: Item>(edges: Seq<(T, T)>, seen: Seq<T>) -> (Option<T>, Seq<(T, T)>, Seq<T>)
    decreases edges.len(),
{
    if edges.len() == 0 {
        (None, edges, seen)
    } else if seen_has(seen, edges[0].0) && !seen_has(seen, edges[0].1) {
        (Some(edges[0].1), edges.drop_first(), seen.push(edges[0].1))
    } else {
        find_edge(edges.drop_first(), seen)
    }
}

pub proof fn lemma_find_edge<T: Item>(edges: Seq<(T, T)>, seen: Seq<T>)
    ensures
        find_edge(edges, seen).1.len() <= edges.len(),
        find_edge(edges, seen).0 is Some ==> find_edge(edges, seen).1.len() < edges.len(),
        find_edge(edges, seen).0 is None ==> find_edge(edges, seen).1.len() == 0 && find_edge(edges, seen).2 == seen,
    decreases edges.len(),
{
    if edges.len() > 0 {
        lemma_find_edge(edges.drop_first(), seen);
    }
}

/// What a closure hands out from pending start items `p`, a found edge
/// target `e`, the edges still to read and the items seen: the earlier (in
/// sense `s`) of the next pending item and the next newly reached item, a
/// pending item first on a tie.
pub open spec fn closure_stream<T: Item>(s: Sense, p: Seq<T>, e: Option<T>, edges: Seq<(T, T)>, seen: Seq<T>) -> Seq<T>
    decreases p.len() + edges.len() + if e is Some { 1int } else { 0int }, if e is Some { 0int } else { 1int },
{
    match e {
        None => {
            let f = find_edge(edges, seen);
            proof {
                lemma_find_edge(edges, seen);
            }
            if f.0 is Some {
                closure_stream(s, p, f.0, f.1, f.2)
            } else {
                p
            }
        },
        Some(x) => if p.len() == 0 {
            seq![x] + closure_stream(s, p, None, edges, seen)
        } else if order_le(s, p[0], x) {
            seq![p[0]] + closure_stream(s, p.drop_first(), e, edges, seen)
        } else {
            seq![x] + closure_stream(s, p, None, edges, seen)
        },
    }
}

// ----- what a closure reaches -----

/// `x` and the targets of the edges that leave it.
pub open spec fn step_from<T>(edges: Seq<(T, T)>, x: Set<T>) -> Set<T> {
    x.union(Set::new(|t: T| exists|i: int| 0 <= i < edges.len() && x.contains(edges[i].0) && edges[i].1 == t))
}

/// The items at most `k` edges from `x`.
pub open spec fn reached<T>(edges: Seq<(T, T)>, x: Set<T>, k: nat) -> Set<T>
    decreases k,
{
    if k == 0 {
        x
    } else {
        step_from(edges, reached(edges, x, (k - 1) as nat))
    }
}

/// `y` can be reached from `x` along the edges.
pub open spec fn reachable<T>(edges: Seq<(T, T)>, x: Set<T>, y: T) -> bool {
    exists|k: nat| #[trigger] reached(edges, x, k).contains(y)
}

/// The edges come ordered by their sources in sense `s`, and each leads to
/// an item strictly after its source.
pub open spec fn edges_in_order<T: Item>(s: Sense, edges: Seq<(T, T)>) -> bool {
    &&& forall|i: int, j: int| #![trigger edges[i], edges[j]] 0 <= i <= j < edges.len() ==> order_le(s, edges[i].0, edges[j].0)
    &&& forall|i: int| 0 <= i < edges.len() ==> order_compare(s, (#[trigger] edges[i]).0, edges[i].1) == Comparison::Less
}

pub(crate) proof fn lemma_seen_has<T: Item>(seen: Seq<T>, x: T)
    requires
        equal_is_same::<T>(),
    ensures
        seen_has(seen, x) == seen.contains(x),
{
    T::lemma_compare_laws(x, x, x);
    if seen.contains(x) {
        let i = choose|i: int| 0 <= i < seen.len() && seen[i] == x;
        assert((#[trigger] seen[i]).spec_compare(x) == Comparison::Equal);
    }
    if seen_has(seen, x) {
        let i = choose|i: int| 0 <= i < seen.len() && (#[trigger] seen[i]).spec_compare(x) == Comparison::Equal;
        assert(seen[i] == x);
    }
}

/// Where `find_edge` stops: the index of the edge it takes, if any.
spec fn found_at<T: Item>(edges: Seq<(T, T)>, seen: Seq<T>) -> int
    decreases edges.len(),
{
    if edges.len() == 0 {
        0
    } else if seen_has(seen, edges[0].0) && !seen_has(seen, edges[0].1) {
        0
    } else {
        1 + found_at(edges.drop_first(), seen)
    }
}

spec fn leaves_seen<T: Item>(seen: Seq<T>, e: (T, T)) -> bool {
    seen_has(seen, e.0) ==> seen_has(seen, e.1)
}

proof fn lemma_found<T: Item>(edges: Seq<(T, T)>, seen: Seq<T>)
    ensures
        find_edge(edges, seen).0 is None ==> forall|i: int| 0 <= i < edges.len() ==> leaves_seen(seen, #[trigger] edges[i]),
        find_edge(edges, seen).0 is Some ==> {
            let k = found_at(edges, seen);
            &&& 0 <= k < edges.len()
            &&& find_edge(edges, seen).0 == Some(edges[k].1)
            &&& seen_has(seen, edges[k].0)
            &&& !seen_has(seen, edges[k].1)
            &&& find_edge(edges, seen).1 == edges.skip(k + 1)
            &&& find_edge(edges, seen).2 == seen.push(edges[k].1)
            &&& forall|i: int| 0 <= i < k ==> leaves_seen(seen, #[trigger] edges[i])
        },
    decreases edges.len(),
{
    if edges.len() > 0 {
        let d = edges.drop_first();
        lemma_found(d, seen);
        assert forall|i: int| 0 <= i < d.len() implies d[i] == edges[i + 1] by {}
        if !(seen_has(seen, edges[0].0) && !seen_has(seen, edges[0].1)) {
            if find_edge(edges, seen).0 is None {
                assert forall|i: int| 0 <= i < edges.len() implies leaves_seen(seen, #[trigger] edges[i]) by {
                    if i > 0 {
                        assert(leaves_seen(seen, d[i - 1]));
                    }
                }
            } else {
                let k = found_at(d, seen);
                assert(d.skip(k + 1) =~= edges.skip(k + 2));
                assert forall|i: int| 0 <= i < k + 1 implies leaves_seen(seen, #[trigger] edges[i]) by {
                    if i > 0 {
                        assert(leaves_seen(seen, d[i - 1]));
                    }
                }
            }
        } else {
            assert(edges.drop_first() =~= edges.skip(1));
        }
    }
}

/// A closure hands out every start item and every edge target it takes.
proof fn lemma_closure_emits<T: Item>(s: Sense, p: Seq<T>, e: Option<T>, edges: Seq<(T, T)>, seen: Seq<T>)
    ensures
        forall|y: T| #[trigger] p.contains(y) ==> closure_stream(s, p, e, edges, seen).contains(y),
        e matches Some(x) ==> closure_stream(s, p, e, edges, seen).contains(x),
    decreases p.len() + edges.len() + if e is Some { 1int } else { 0int }, if e is Some { 0int } else { 1int },
{
    let out = closure_stream(s, p, e, edges, seen);
    match e {
        None => {
            let f = find_edge(edges, seen);
            lemma_find_edge(edges, seen);
            if f.0 is Some {
                lemma_closure_emits(s, p, f.0, f.1, f.2);
            }
        },
        Some(x) => {
            if p.len() == 0 {
                let rest = closure_stream(s, p, None, edges, seen);
                assert(out == seq![x] + rest);
                assert(out[0] == x);
            } else if order_le(s, p[0], x) {
                let rest = closure_stream(s, p.drop_first(), e, edges, seen);
                lemma_closure_emits(s, p.drop_first(), e, edges, seen);
                assert(out == seq![p[0]] + rest);
                assert(out[0] == p[0]);
                assert forall|y: T| #[trigger] p.contains(y) implies out.contains(y) by {
                    let i = choose|i: int| 0 <= i < p.len() && p[i] == y;
                    if i > 0 {
                        assert(p.drop_first()[i - 1] == y);
                        assert(p.drop_first().contains(y));
                        let j = choose|j: int| 0 <= j < rest.len() && rest[j] == y;
                        assert(out[j + 1] == y);
                    }
                }
                let j = choose|j: int| 0 <= j < rest.len() && rest[j] == x;
                assert(out[j + 1] == x);
            } else {
                let rest = closure_stream(s, p, None, edges, seen);
                lemma_closure_emits(s, p, None, edges, seen);
                assert(out == seq![x] + rest);
                assert(out[0] == x);
                assert forall|y: T| #[trigger] p.contains(y) implies out.contains(y) by {
                    assert(rest.contains(y));
                    let j = choose|j: int| 0 <= j < rest.len() && rest[j] == y;
                    assert(out[j + 1] == y);
                }
            }
        },
    }
}

pub(crate) proof fn lemma_reached_step<T>(edges: Seq<(T, T)>, x: Set<T>, k: nat, i: int)
    requires
        0 <= i < edges.len(),
        reached(edges, x, k).contains(edges[i].0),
    ensures
        reached(edges, x, k + 1).contains(edges[i].1),
{
    assert(reached(edges, x, k + 1) == step_from(edges, reached(edges, x, k)));
}

proof fn lemma_closure_sound_rec<T: Item>(
    s: Sense,
    all: Seq<(T, T)>,
    start: Set<T>,
    p: Seq<T>,
    e: Option<T>,
    m: int,
    seen: Seq<T>,
)
    requires
        equal_is_same::<T>(),
        0 <= m <= all.len(),
        forall|y: T| #[trigger] p.contains(y) ==> reachable(all, start, y),
        e matches Some(x) ==> reachable(all, start, x),
        forall|y: T| #[trigger] seen.contains(y) ==> reachable(all, start, y),
    ensures
        forall|y: T| #[trigger] closure_stream(s, p, e, all.skip(m), seen).contains(y) ==> reachable(all, start, y),
    decreases p.len() + (all.len() - m) + if e is Some { 1int } else { 0int }, if e is Some { 0int } else { 1int },
{
    let edges = all.skip(m);
    let out = closure_stream(s, p, e, edges, seen);
    match e {
        None => {
            let f = find_edge(edges, seen);
            lemma_find_edge(edges, seen);
            lemma_found(edges, seen);
            if f.0 is Some {
                let k = found_at(edges, seen);
                let t = edges[k].1;
                assert(edges[k] == all[m + k]);
                lemma_seen_has(seen, edges[k].0);
                let r = choose|r: nat| #[trigger] reached(all, start, r).contains(all[m + k].0);
                lemma_reached_step(all, start, r, m + k);
                assert(edges.skip(k + 1) =~= all.skip(m + k + 1));
                assert forall|y: T| #[trigger] f.2.contains(y) implies reachable(all, start, y) by {
                    if y != t {
                        assert(seen.contains(y));
                    } else {
                        assert(reached(all, start, r + 1).contains(y));
                    }
                }
                assert(reached(all, start, r + 1).contains(t));
                lemma_closure_sound_rec(s, all, start, p, f.0, m + k + 1, f.2);
                assert(out == closure_stream(s, p, f.0, all.skip(m + k + 1), f.2));
            } else {
                assert(out == p);
            }
        },
        Some(x) => {
            if p.len() == 0 {
                lemma_closure_sound_rec(s, all, start, p, None, m, seen);
                let rest = closure_stream(s, p, None, edges, seen);
                assert(out == seq![x] + rest);
                assert forall|y: T| #[trigger] out.contains(y) implies reachable(all, start, y) by {
                    let i = choose|i: int| 0 <= i < out.len() && out[i] == y;
                    if i > 0 {
                        assert(rest[i - 1] == y);
                        assert(rest.contains(y));
                    }
                }
            } else if order_le(s, p[0], x) {
                assert forall|y: T| #[trigger] p.drop_first().contains(y) implies reachable(all, start, y) by {
                    let i = choose|i: int| 0 <= i < p.drop_first().len() && p.drop_first()[i] == y;
                    assert(p[i + 1] == y);
                    assert(p.contains(y));
                }
                lemma_closure_sound_rec(s, all, start, p.drop_first(), e, m, seen);
                let rest = closure_stream(s, p.drop_first(), e, edges, seen);
                assert(out == seq![p[0]] + rest);
                assert(p.contains(p[0]));
                assert forall|y: T| #[trigger] out.contains(y) implies reachable(all, start, y) by {
                    let i = choose|i: int| 0 <= i < out.len() && out[i] == y;
                    if i > 0 {
                        assert(rest[i - 1] == y);
                        assert(rest.contains(y));
                    }
                }
            } else {
                lemma_closure_sound_rec(s, all, start, p, None, m, seen);
                let rest = closure_stream(s, p, None, edges, seen);
                assert(out == seq![x] + rest);
                assert forall|y: T| #[trigger] out.contains(y) implies reachable(all, start, y) by {
                    let i = choose|i: int| 0 <= i < out.len() && out[i] == y;
                    if i > 0 {
                        assert(rest[i - 1] == y);
                        assert(rest.contains(y));
                    }
                }
            }
        },
    }
}

/// Every item a closure hands out is reachable from its start items along
/// the edges.
pub proof fn law_closure_sound<T: Item>(s: Sense, p: Seq<T>, edges: Seq<(T, T)>)
    requires
        equal_is_same::<T>(),
    ensures
        forall|y: T| #[trigger] closure_stream(s, p, None, edges, p).contains(y) ==> reachable(edges, p.to_set(), y),
{
    assert forall|y: T| #[trigger] p.contains(y) implies reachable(edges, p.to_set(), y) by {
        assert(reached(edges, p.to_set(), 0).contains(y));
    }
    assert(edges.skip(0) =~= edges);
    lemma_closure_sound_rec(s, edges, p.to_set(), p, None, 0, p);
}

/// No edge leads to the source of an edge at or before it.
pub(crate) proof fn lemma_no_earlier_source<T: Item>(s: Sense, all: Seq<(T, T)>, i: int, j: int)
    requires
        edges_in_order(s, all),
        0 <= i <= j < all.len(),
    ensures
        all[i].0 != all[j].1,
{
    assert(order_le(s, all[i].0, all[j].0));
    assert(order_compare(s, all[j].0, all[j].1) == Comparison::Less);
    lemma_order_laws(s, all[i].0, all[j].0, all[j].1);
    lemma_order_laws(s, all[j].1, all[j].1, all[j].1);
}

/// Earlier edges: a source in `seen` means a target in `seen`.
pub(crate) open spec fn closed_before<T>(all: Seq<(T, T)>, m: int, seen: Seq<T>) -> bool {
    forall|i: int| 0 <= i < m ==> (seen.contains((#[trigger] all[i]).0) ==> seen.contains(all[i].1))
}

/// Every edge whose source is in `seen` or handed out has its target there.
spec fn closed_with<T>(all: Seq<(T, T)>, seen: Seq<T>, out: Seq<T>) -> bool {
    forall|i: int| 0 <= i < all.len() ==> ((seen.contains((#[trigger] all[i]).0) || out.contains(all[i].0)) ==> (seen.contains(all[i].1) || out.contains(all[i].1)))
}

/// Each item handed out was seen or is the target of an edge from `m` on.
spec fn from_seen_or_later<T>(all: Seq<(T, T)>, m: int, seen: Seq<T>, out: Seq<T>) -> bool {
    forall|y: T| #[trigger] out.contains(y) ==> (seen.contains(y) || exists|j: int| m <= j < all.len() && all[j].1 == y)
}

proof fn lemma_closed_before_m<T: Item>(s: Sense, all: Seq<(T, T)>, m: int, seen: Seq<T>, out: Seq<T>)
    requires
        edges_in_order(s, all),
        0 <= m <= all.len(),
        closed_before(all, m, seen),
        from_seen_or_later(all, m, seen, out),
        forall|i: int| m <= i < all.len() ==> ((seen.contains((#[trigger] all[i]).0) || out.contains(all[i].0)) ==> (seen.contains(all[i].1) || out.contains(all[i].1))),
    ensures
        closed_with(all, seen, out),
{
    assert forall|i: int| 0 <= i < all.len() && (seen.contains((#[trigger] all[i]).0) || out.contains(all[i].0)) implies (seen.contains(all[i].1) || out.contains(all[i].1)) by {
        if i < m {
            if !seen.contains(all[i].0) {
                assert(out.contains(all[i].0));
                let j = choose|j: int| m <= j < all.len() && all[j].1 == all[i].0;
                lemma_no_earlier_source(s, all, i, j);
            }
        }
    }
}

pub(crate) proof fn lemma_push_contains<T>(seen: Seq<T>, t: T)
    ensures
        forall|y: T| #[trigger] seen.push(t).contains(y) == (seen.contains(y) || y == t),
{
    assert forall|y: T| #[trigger] seen.push(t).contains(y) == (seen.contains(y) || y == t) by {
        if seen.contains(y) {
            let i = choose|i: int| 0 <= i < seen.len() && seen[i] == y;
            assert(seen.push(t)[i] == y);
        }
        if y == t {
            assert(seen.push(t)[seen.len() as int] == y);
        }
        if seen.push(t).contains(y) {
            let i = choose|i: int| 0 <= i < seen.push(t).len() && seen.push(t)[i] == y;
            if i < seen.len() {
                assert(seen[i] == y);
            }
        }
    }
}

proof fn lemma_closure_complete_rec<T: Item>(s: Sense, all: Seq<(T, T)>, p: Seq<T>, e: Option<T>, m: int, seen: Seq<T>)
    requires
        s != Sense::Unsorted,
        equal_is_same::<T>(),
        edges_in_order(s, all),
        0 <= m <= all.len(),
        forall|y: T| #[trigger] p.contains(y) ==> seen.contains(y),
        e matches Some(x) ==> seen.contains(x),
        closed_before(all, m, seen),
    ensures
        from_seen_or_later(all, m, seen, closure_stream(s, p, e, all.skip(m), seen)),
        closed_with(all, seen, closure_stream(s, p, e, all.skip(m), seen)),
    decreases p.len() + (all.len() - m) + if e is Some { 1int } else { 0int }, if e is Some { 0int } else { 1int },
{
    let edges = all.skip(m);
    let out = closure_stream(s, p, e, edges, seen);
    match e {
        None => {
            let f = find_edge(edges, seen);
            lemma_find_edge(edges, seen);
            lemma_found(edges, seen);
            if f.0 is Some {
                let k = found_at(edges, seen);
                let t = edges[k].1;
                assert(edges[k] == all[m + k]);
                let seen2 = seen.push(t);
                lemma_push_contains(seen, t);
                assert(edges.skip(k + 1) =~= all.skip(m + k + 1));
                assert forall|i: int| 0 <= i < m + k + 1 implies (seen2.contains((#[trigger] all[i]).0) ==> seen2.contains(all[i].1)) by {
                    if seen2.contains(all[i].0) {
                        lemma_no_earlier_source(s, all, i, m + k);
                        assert(seen.contains(all[i].0));
                        if i >= m && i < m + k {
                            assert(edges[i - m] == all[i]);
                            assert(leaves_seen(seen, edges[i - m]));
                            lemma_seen_has(seen, all[i].0);
                            lemma_seen_has(seen, all[i].1);
                        }
                    }
                }
                assert forall|y: T| #[trigger] p.contains(y) implies seen2.contains(y) by {
                    assert(seen.contains(y));
                }
                assert(seen2.contains(t));
                lemma_closure_complete_rec(s, all, p, f.0, m + k + 1, seen2);
                assert(out == closure_stream(s, p, f.0, all.skip(m + k + 1), seen2));
                lemma_closure_emits(s, p, f.0, all.skip(m + k + 1), seen2);
                assert forall|y: T| #[trigger] out.contains(y) implies (seen.contains(y) || exists|j: int| m <= j < all.len() && all[j].1 == y) by {
                    if !seen.contains(y) && y == t {
                        assert(all[m + k].1 == y);
                    }
                }
                assert forall|i: int| 0 <= i < all.len() && (seen.contains((#[trigger] all[i]).0) || out.contains(all[i].0)) implies (seen.contains(all[i].1) || out.contains(all[i].1)) by {
                    assert(seen2.contains(all[i].0) || out.contains(all[i].0));
                }
            } else {
                assert(out == p);
                assert forall|i: int| m <= i < all.len() && (seen.contains((#[trigger] all[i]).0) || out.contains(all[i].0)) implies (seen.contains(all[i].1) || out.contains(all[i].1)) by {
                    assert(edges[i - m] == all[i]);
                    assert(leaves_seen(seen, edges[i - m]));
                    lemma_seen_has(seen, all[i].0);
                    lemma_seen_has(seen, all[i].1);
                }
                lemma_closed_before_m(s, all, m, seen, out);
            }
        },
        Some(x) => {
            let (p2, e2, head) = if p.len() == 0 {
                (p, None, x)
            } else if order_le(s, p[0], x) {
                (p.drop_first(), e, p[0])
            } else {
                (p, None, x)
            };
            assert forall|y: T| #[trigger] p2.contains(y) implies seen.contains(y) by {
                if p2 != p {
                    let i = choose|i: int| 0 <= i < p2.len() && p2[i] == y;
                    assert(p[i + 1] == y);
                    assert(p.contains(y));
                }
            }
            if p.len() > 0 {
                assert(p.contains(p[0]));
            }
            assert(seen.contains(head));
            lemma_closure_complete_rec(s, all, p2, e2, m, seen);
            let rest = closure_stream(s, p2, e2, edges, seen);
            assert(out == seq![head] + rest);
            assert forall|z: T| (seen.contains(z) || out.contains(z)) == (seen.contains(z) || rest.contains(z)) by {
                if out.contains(z) && z != head {
                    let i = choose|i: int| 0 <= i < out.len() && out[i] == z;
                    assert(rest[i - 1] == z);
                }
                if rest.contains(z) {
                    let i = choose|i: int| 0 <= i < rest.len() && rest[i] == z;
                    assert(out[i + 1] == z);
                }
            }
            assert forall|y: T| #[trigger] out.contains(y) implies (seen.contains(y) || exists|j: int| m <= j < all.len() && all[j].1 == y) by {
                assert(seen.contains(y) || rest.contains(y));
            }
            assert forall|i: int| 0 <= i < all.len() && (seen.contains((#[trigger] all[i]).0) || out.contains(all[i].0)) implies (seen.contains(all[i].1) || out.contains(all[i].1)) by {
                assert(seen.contains(all[i].0) || rest.contains(all[i].0));
                assert(seen.contains(all[i].1) || rest.contains(all[i].1));
            }
        },
    }
}

pub(crate) proof fn lemma_reached_within<T>(edges: Seq<(T, T)>, x: Set<T>, out: Seq<T>, k: nat)
    requires
        forall|y: T| #[trigger] x.contains(y) ==> out.contains(y),
        forall|i: int| 0 <= i < edges.len() ==> (out.contains((#[trigger] edges[i]).0) ==> out.contains(edges[i].1)),
    ensures
        forall|y: T| #[trigger] reached(edges, x, k).contains(y) ==> out.contains(y),
    decreases k,
{
    if k > 0 {
        lemma_reached_within(edges, x, out, (k - 1) as nat);
        let r = reached(edges, x, (k - 1) as nat);
        assert forall|y: T| #[trigger] reached(edges, x, k).contains(y) implies out.contains(y) by {
            assert(step_from(edges, r).contains(y));
            if !r.contains(y) {
                let i = choose|i: int| 0 <= i < edges.len() && r.contains(edges[i].0) && edges[i].1 == y;
                assert(out.contains(edges[i].0));
            }
        }
    }
}

/// When the edges come ordered by source and each leads to a later item, a
/// closure hands out every item reachable from its start items.
pub proof fn law_closure_complete<T: Item>(s: Sense, p: Seq<T>, edges: Seq<(T, T)>)
    requires
        s != Sense::Unsorted,
        equal_is_same::<T>(),
        edges_in_order(s, edges),
    ensures
        forall|y: T| reachable(edges, p.to_set(), y) ==> #[trigger] closure_stream(s, p, None, edges, p).contains(y),
{
    let out = closure_stream(s, p, None, edges, p);
    assert(edges.skip(0) =~= edges);
    lemma_closure_complete_rec(s, edges, p, None, 0, p);
    lemma_closure_emits(s, p, None, edges, p);
    assert forall|i: int| 0 <= i < edges.len() implies (out.contains((#[trigger] edges[i]).0) ==> out.contains(edges[i].1)) by {
        if out.contains(edges[i].0) {
            assert(p.contains(edges[i].1) || out.contains(edges[i].1));
        }
    }
    assert forall|y: T| #[trigger] p.to_set().contains(y) implies out.contains(y) by {
        assert(p.contains(y));
    }
    assert forall|y: T| reachable(edges, p.to_set(), y) implies #[trigger] out.contains(y) by {
        let k = choose|k: nat| #[trigger] reached(edges, p.to_set(), k).contains(y);
        lemma_reached_within(edges, p.to_set(), out, k);
    }
}

/// Whether `x` equals some item of `set`.
pub fn contains<T: Item + Copy>(set: &Vec<T>, x: &T) -> (r: bool)
    ensures
        r == seen_has(set@, *x),
{
    let mut i: usize = 0;
    while i < set.len()
        invariant
            i <= set.len(),
            forall|j: int| 0 <= j < i ==> (#[trigger] set@[j]).spec_compare(*x) != Comparison::Equal,
        decreases set.len() - i,
    {
        if set[i].compare(x) == Comparison::Equal {
            return true;
        }
        i = i + 1;
    }
    false
}

/// The items of a start operator, then every item reached from them along
/// the edges as the edges stream by.
pub struct Closure<T, U: Operator<T, O>, V: Operator<(T, T), O>, O: Order> {
    u: Option<U>,
    pending: VecDeque<T>,
    pending_item: Option<T>,
    edge_item: Option<T>,
    v: Buffered<(T, T), V, O>,
    set: Vec<T>,
}

impl<T: Item + Copy, U: Operator<T, O>, V: Operator<(T, T), O>, O: Order> Closure<T, U, V, O> {
    pub fn new(u: U, v: V) -> (r: Self)
        requires
            u.inv(),
            v.inv(),
        ensures
            r.inv(),
            r.rest() == closure_stream(O::sense(), u.rest(), None, v.rest(), u.rest()),
    {
        Closure {
            u: Some(u),
            pending: VecDeque::new(),
            pending_item: None,
            edge_item: None,
            v: Buffered::new(v),
            set: Vec::new(),
        }
    }

    spec fn p(&self) -> Seq<T> {
        with_held(self.pending_item, self.pending@)
    }
}

impl<T: Item + Copy, U: Operator<T, O>, V: Operator<(T, T), O>, O: Order> Operator<T, O> for Closure<T, U, V, O> {
    closed spec fn inv(&self) -> bool {
        &&& self.v.inv()
        &&& self.u matches Some(start) ==> {
            &&& start.inv()
            &&& self.pending@.len() == 0
            &&& self.pending_item is None
            &&& self.edge_item is None
        }
    }

    closed spec fn rest(&self) -> Seq<T> {
        match self.u {
            Some(start) => closure_stream(O::sense(), start.rest(), None, self.v.rest(), start.rest()),
            None => closure_stream(O::sense(), self.p(), self.edge_item, self.v.rest(), self.set@),
        }
    }

    /// Hands out up to `CLOSURE_BATCH_SIZE` items.
    fn next(&mut self, batch: &mut Batch<T, O>)
        ensures
            final(batch).data@.len() <= CLOSURE_BATCH_SIZE,
            final(batch).data@.len() < CLOSURE_BATCH_SIZE ==> final(self).rest().len() == 0,
    {
        let ghost start_stream = self.rest();
        let taken = self.u.take();
        match taken {
            Some(mut start) => {
                let items = start.collect_all();
                let mut set: Vec<T> = Vec::new();
                let mut pending: VecDeque<T> = VecDeque::new();
                let mut i: usize = 0;
                while i < items.len()
                    invariant
                        i <= items.len(),
                        set@ == items@.take(i as int),
                        pending@ == items@.take(i as int),
                    decreases items.len() - i,
                {
                    let x = items[i];
                    set.push(x);
                    pending.push_back(x);
                    proof {
                        assert(items@.take(i + 1) =~= items@.take(i as int).push(x));
                    }
                    i = i + 1;
                }
                proof {
                    assert(items@.take(i as int) =~= items@);
                }
                self.set = set;
                self.pending = pending;
                proof {
                    assert(self.p() == items@);
                }
            },
            None => {},
        }
        proof {
            assert(start_stream == closure_stream(O::sense(), self.p(), self.edge_item, self.v.rest(), self.set@));
        }
        let mut done = false;
        while batch.data.len() < CLOSURE_BATCH_SIZE && !done
            invariant
                self.u is None,
                self.v.inv(),
                batch.data@.len() <= CLOSURE_BATCH_SIZE,
                start_stream == batch.data@ + closure_stream(O::sense(), self.p(), self.edge_item, self.v.rest(), self.set@),
                done ==> closure_stream(O::sense(), self.p(), self.edge_item, self.v.rest(), self.set@).len() == 0,
            decreases self.p().len() + self.v.rest().len() + if self.edge_item is Some { 1int } else { 0int }, if done { 0int } else { 1int },
        {
            if self.pending_item.is_none() {
                let ghost q = self.pending@;
                self.pending_item = self.pending.pop_front();
                proof {
                    if self.pending_item is Some {
                        assert(self.p() =~= q);
                    }
                }
            }
            let ghost p0 = self.p();
            let ghost e0 = self.edge_item;
            let ghost edges0 = self.v.rest();
            let ghost seen0 = self.set@;
            let ghost p0_item = self.pending_item;
            if self.edge_item.is_none() {
                let mut searching = true;
                while searching
                    invariant
                        self.v.inv(),
                        self.edge_item is None ==> find_edge(self.v.rest(), self.set@) == find_edge(edges0, seen0),
                        searching ==> self.edge_item is None,
                        !searching ==> (self.edge_item, self.v.rest(), self.set@) == find_edge(edges0, seen0),
                        self.u is None,
                        self.p() == p0,
                        self.pending_item == p0_item,
                    decreases self.v.rest().len() + if searching { 1int } else { 0int },
                {
                    let ghost before = self.v.rest();
                    match self.v.next_item() {
                        None => {
                            searching = false;
                            proof {
                                assert(before.len() == 0);
                                assert(find_edge(before, self.set@) == (None::<T>, before, self.set@));
                                assert(self.v.rest() =~= before);
                            }
                        },
                        Some(edge) => {
                            proof {
                                assert(before[0] == edge);
                                assert(before.drop_first() =~= self.v.rest());
                            }
                            let from_seen = contains(&self.set, &edge.0);
                            let to_seen = contains(&self.set, &edge.1);
                            if from_seen && !to_seen {
                                self.set.push(edge.1);
                                self.edge_item = Some(edge.1);
                                searching = false;
                            }
                        },
                    }
                }
                proof {
                    lemma_find_edge(edges0, seen0);
                    if self.edge_item is None {
                        assert(self.v.rest().len() == 0);
                        assert(closure_stream(O::sense(), p0, None, edges0, seen0) == p0);
                        assert(find_edge(self.v.rest(), self.set@).0 is None);
                        assert(closure_stream(O::sense(), self.p(), None, self.v.rest(), self.set@) == p0);
                    }
                }
            }
            proof {
                assert(closure_stream(O::sense(), p0, e0, edges0, seen0)
                    == closure_stream(O::sense(), self.p(), self.edge_item, self.v.rest(), self.set@));
            }
            let ghost p1 = self.p();
            match (self.pending_item, self.edge_item) {
                (Some(p), Some(e)) => {
                    proof {
                        assert(p1[0] == p);
                        assert(p1.drop_first() =~= self.pending@);
                    }
                    if compare_in::<T, O>(&p, &e) != Comparison::Greater {
                        self.pending_item = None;
                        batch.data.push(p);
                    } else {
                        self.edge_item = None;
                        batch.data.push(e);
                    }
                },
                (Some(p), None) => {
                    proof {
                        assert(p1[0] == p);
                        assert(p1.drop_first() =~= self.pending@);
                        lemma_find_edge(self.v.rest(), self.set@);
                    }
                    self.pending_item = None;
                    batch.data.push(p);
                },
                (None, Some(e)) => {
                    self.edge_item = None;
                    batch.data.push(e);
                },
                (None, None) => {
                    done = true;
                },
            }
            proof {
                assert(start_stream =~= batch.data@ + closure_stream(O::sense(), self.p(), self.edge_item, self.v.rest(), self.set@));
            }
        }
    }
}

} // verus!
