//! What `x::y` hands out: the revisions that descend from a root and lead to
//! a head.
use vstd::prelude::*;

use crate::physical::closure::{
    closed_before, edges_in_order, lemma_no_earlier_source, lemma_push_contains, lemma_reached_step,
    lemma_reached_within, lemma_seen_has, reachable, reached, seen_has, step_from,
};
use crate::physical::merge::{equal_is_same, lemma_rev_equal_is_same};
use crate::physical::order::{lemma_order_laws, order_compare, ordered, Comparison, Item, Rev, Sense};
use crate::physical::range::{ancestry, arranged, dag_range_stream, range_scan_order, descend, head_window, interleave, kept_roots, lead, lemma_lead_bound, turned, lemma_head_window, lemma_root_window, root_window, window_edges};
use crate::physical::source::{before_count, scan_rest};

verus! {

/// For ordered items, `before_count` marks where the items stop coming
/// before `x`.
proof fn lemma_before_count_split<T: Item>(s: Sense, items: Seq<T>, x: T)
    requires
        s != Sense::Unsorted,
        ordered(s, items),
    ensures
        before_count(s, items, x) <= items.len(),
        forall|j: int| 0 <= j < before_count(s, items, x) ==> order_compare(s, #[trigger] items[j], x) == Comparison::Less,
        forall|j: int| before_count(s, items, x) <= j < items.len() ==> order_compare(s, #[trigger] items[j], x) != Comparison::Less,
    decreases items.len(),
{
    if items.len() > 0 {
        let d = items.drop_last();
        assert(ordered(s, d)) by {
            assert forall|i: int, j: int| 0 <= i <= j < d.len() implies order_le_at(s, d, i, j) by {
                assert(d[i] == items[i] && d[j] == items[j]);
            }
        }
        lemma_before_count_split(s, d, x);
        let n = items.len() - 1;
        assert(items.last() == items[n]);
        if order_compare(s, items[n], x) == Comparison::Less {
            assert forall|j: int| 0 <= j < items.len() implies order_compare(s, #[trigger] items[j], x) == Comparison::Less by {
                assert(crate::physical::order::order_le(s, items[j], items[n]));
                lemma_order_laws(s, items[j], items[n], x);
                if j < n {
                    assert(d[j] == items[j]);
                }
            }
        } else {
            assert forall|j: int| 0 <= j < before_count(s, items, x) implies order_compare(s, #[trigger] items[j], x) == Comparison::Less by {
                assert(d[j] == items[j]);
            }
            assert forall|j: int| before_count(s, items, x) <= j < items.len() implies order_compare(s, #[trigger] items[j], x) != Comparison::Less by {
                if j < n {
                    assert(d[j] == items[j]);
                }
            }
        }
    }
}

spec fn order_le_at<T: Item>(s: Sense, q: Seq<T>, i: int, j: int) -> bool {
    crate::physical::order::order_le(s, q[i], q[j])
}

/// Where a scan from `i` up to `e` stops.
spec fn scan_end<T: Item>(s: Sense, items: Seq<T>, i: int, e: T) -> int
    decreases items.len() - i,
{
    if i < 0 || i >= items.len() {
        i
    } else if order_compare(s, items[i], e) == Comparison::Greater {
        i
    } else {
        scan_end(s, items, i + 1, e)
    }
}

/// For ordered items, a scan from `i` up to `e` is the run of items from `i`
/// that do not come after `e`.
proof fn lemma_scan_run<T: Item>(s: Sense, items: Seq<T>, i: int, e: T)
    requires
        s != Sense::Unsorted,
        ordered(s, items),
        0 <= i <= items.len(),
    ensures
        i <= scan_end(s, items, i, e) <= items.len(),
        scan_rest(s, items, i, Some(e)) == items.subrange(i, scan_end(s, items, i, e)),
        forall|k: int| i <= k < scan_end(s, items, i, e) ==> order_compare(s, #[trigger] items[k], e) != Comparison::Greater,
        forall|k: int| scan_end(s, items, i, e) <= k < items.len() ==> order_compare(s, #[trigger] items[k], e) == Comparison::Greater,
    decreases items.len() - i,
{
    if i == items.len() {
        assert(items.subrange(i, i) =~= Seq::<T>::empty());
    } else if order_compare(s, items[i], e) == Comparison::Greater {
        assert(items.subrange(i, i) =~= Seq::<T>::empty());
        assert forall|k: int| i <= k < items.len() implies order_compare(s, #[trigger] items[k], e) == Comparison::Greater by {
            assert(crate::physical::order::order_le(s, items[i], items[k]));
            lemma_order_laws(s, items[i], e, e);
            lemma_order_laws(s, e, items[i], items[k]);
            lemma_order_laws(s, items[k], e, e);
        }
    } else {
        lemma_scan_run(s, items, i + 1, e);
        let j = scan_end(s, items, i + 1, e);
        assert(seq![items[i]] + items.subrange(i + 1, j) =~= items.subrange(i, j));
    }
}

/// The window of edges that `x::y` reads: from the first edge whose child
/// is at most the newest head to the last whose child is at least the oldest
/// root.
proof fn lemma_window(edges: Seq<(Rev, Rev)>, xs: Seq<Rev>, ys: Seq<Rev>) -> (pj: (int, int))
    requires
        ordered(Sense::Natural, edges),
        xs.len() > 0,
        ys.len() > 0,
    ensures
        0 <= pj.0 <= pj.1 <= edges.len(),
        window_edges(edges, xs, ys) == edges.subrange(pj.0, pj.1),
        forall|k: int| 0 <= k < edges.len() ==> ((pj.0 <= k < pj.1) == (root_window(xs).1.0 <= (#[trigger] edges[k]).0.0 <= head_window(ys).0.0)),
{
    lemma_head_window(ys);
    lemma_root_window(xs);
    let h = head_window(ys);
    let r = root_window(xs);
    let lower = h.0;
    let upper = r.1;
    let lo_key = (lower, Rev(u32::MAX));
    let hi_key = (upper, Rev(0));
    assert(crate::physical::range::later(Sense::Natural, h.0, r.0) == lower);
    assert(crate::physical::range::earlier(Sense::Natural, h.1, r.1) == upper);
    lemma_before_count_split(Sense::Natural, edges, lo_key);
    let p = before_count(Sense::Natural, edges, lo_key) as int;
    lemma_scan_run(Sense::Natural, edges, p, hi_key);
    let j = scan_end(Sense::Natural, edges, p, hi_key);
    assert forall|k: int| 0 <= k < edges.len() implies ((p <= k < j) == (upper.0 <= (#[trigger] edges[k]).0.0 <= lower.0)) by {
        let c = edges[k].0;
        if k < p {
            assert(order_compare(Sense::Natural, edges[k], lo_key) == Comparison::Less);
        } else if k < j {
            assert(order_compare(Sense::Natural, edges[k], lo_key) != Comparison::Less);
            assert(order_compare(Sense::Natural, edges[k], hi_key) != Comparison::Greater);
        } else {
            assert(order_compare(Sense::Natural, edges[k], hi_key) == Comparison::Greater);
        }
    }
    (p, j)
}

/// Reading the edges from `m` on grows `anc` into a set that holds every
/// target of an edge whose source it holds, and only what `start` reaches.
proof fn lemma_ancestry_rec(all: Seq<(Rev, Rev)>, m: int, anc: Seq<Rev>, start: Set<Rev>)
    requires
        edges_in_order(Sense::Natural, all),
        0 <= m <= all.len(),
        closed_before(all, m, anc),
        forall|y: Rev| #[trigger] anc.contains(y) ==> reachable(all, start, y),
    ensures
        forall|y: Rev| #[trigger] anc.contains(y) ==> ancestry(all.skip(m), anc).contains(y),
        forall|y: Rev| #[trigger] ancestry(all.skip(m), anc).contains(y) ==> reachable(all, start, y),
        closed_before(all, all.len() as int, ancestry(all.skip(m), anc)),
    decreases all.len() - m,
{
    lemma_rev_equal_is_same();
    let edges = all.skip(m);
    if m == all.len() {
        assert(edges =~= Seq::<(Rev, Rev)>::empty());
    } else {
        let e = all[m];
        assert(edges[0] == e);
        assert(edges.drop_first() =~= all.skip(m + 1));
        lemma_seen_has(anc, e.0);
        let next = if seen_has(anc, e.0) { anc.push(e.1) } else { anc };
        lemma_push_contains(anc, e.1);
        assert forall|i: int| 0 <= i < m + 1 implies (next.contains((#[trigger] all[i]).0) ==> next.contains(all[i].1)) by {
            if next.contains(all[i].0) {
                lemma_no_earlier_source(Sense::Natural, all, i, m);
                assert(anc.contains(all[i].0));
            }
        }
        assert forall|y: Rev| #[trigger] next.contains(y) implies reachable(all, start, y) by {
            if !anc.contains(y) {
                assert(y == e.1 && anc.contains(e.0));
                assert(reachable(all, start, e.0));
                let k = choose|k: nat| #[trigger] reached(all, start, k).contains(e.0);
                lemma_reached_step(all, start, k, m);
                assert(reached(all, start, k + 1).contains(y));
            }
        }
        lemma_ancestry_rec(all, m + 1, next, start);
        assert(ancestry(edges, anc) == ancestry(all.skip(m + 1), next));
        assert forall|y: Rev| #[trigger] anc.contains(y) implies ancestry(edges, anc).contains(y) by {
            assert(next.contains(y));
        }
    }
}

/// Earlier pairs: a parent among the roots with a child in `anc` means a
/// child among the roots.
spec fn reached_before(all: Seq<(Rev, Rev)>, m: int, anc: Seq<Rev>, roots: Seq<Rev>) -> bool {
    forall|i: int| 0 <= i < m ==> (roots.contains((#[trigger] all[i]).0) && anc.contains(all[i].1) ==> roots.contains(all[i].1))
}

/// Reading (parent, child) pairs from `m` on hands out children in `anc`
/// that the roots reach, until every pair from a root (or a handed-out
/// child) to a child in `anc` has its child among them.
proof fn lemma_descend_rec(all: Seq<(Rev, Rev)>, m: int, anc: Seq<Rev>, roots: Seq<Rev>, start: Set<Rev>)
    requires
        edges_in_order(Sense::Reversed, all),
        0 <= m <= all.len(),
        reached_before(all, m, anc, roots),
        forall|y: Rev| #[trigger] roots.contains(y) ==> reachable(all, start, y),
    ensures
        forall|y: Rev| #[trigger] descend(all.skip(m), anc, roots).contains(y) ==> reachable(all, start, y) && anc.contains(y),
        forall|i: int| 0 <= i < all.len() ==> ((roots.contains((#[trigger] all[i]).0) || descend(all.skip(m), anc, roots).contains(all[i].0))
            && anc.contains(all[i].1) ==> (roots.contains(all[i].1) || descend(all.skip(m), anc, roots).contains(all[i].1))),
        descend(all.skip(m), anc, roots).len() > 0 ==> exists|i: int| m <= i < all.len() && roots.contains((#[trigger] all[i]).0)
            && all[i].1 == descend(all.skip(m), anc, roots)[0],
    decreases all.len() - m,
{
    lemma_rev_equal_is_same();
    let pairs = all.skip(m);
    let found = descend(pairs, anc, roots);
    if m == all.len() {
        assert(pairs =~= Seq::<(Rev, Rev)>::empty());
        assert(found =~= Seq::<Rev>::empty());
    } else {
        let (p, c) = all[m];
        assert(pairs[0] == all[m]);
        assert(pairs.drop_first() =~= all.skip(m + 1));
        lemma_seen_has(anc, c);
        lemma_seen_has(roots, p);
        lemma_seen_has(roots, c);
        if anc.contains(c) && roots.contains(p) && !roots.contains(c) {
            let roots2 = roots.push(c);
            lemma_push_contains(roots, c);
            assert forall|i: int| 0 <= i < m + 1 implies (roots2.contains((#[trigger] all[i]).0) && anc.contains(all[i].1) ==> roots2.contains(all[i].1)) by {
                if roots2.contains(all[i].0) {
                    lemma_no_earlier_source(Sense::Reversed, all, i, m);
                    assert(roots.contains(all[i].0));
                }
            }
            assert forall|y: Rev| #[trigger] roots2.contains(y) implies reachable(all, start, y) by {
                if !roots.contains(y) {
                    let k = choose|k: nat| #[trigger] reached(all, start, k).contains(p);
                    lemma_reached_step(all, start, k, m);
                    assert(reached(all, start, k + 1).contains(y));
                }
            }
            lemma_descend_rec(all, m + 1, anc, roots2, start);
            let rest = descend(all.skip(m + 1), anc, roots2);
            assert(found == seq![c] + rest);
            assert(found[0] == c);
            assert forall|z: Rev| (roots.contains(z) || found.contains(z)) == (roots2.contains(z) || rest.contains(z)) by {
                if found.contains(z) && z != c {
                    let i = choose|i: int| 0 <= i < found.len() && found[i] == z;
                    assert(rest[i - 1] == z);
                }
                if rest.contains(z) {
                    let i = choose|i: int| 0 <= i < rest.len() && rest[i] == z;
                    assert(found[i + 1] == z);
                }
                if z == c {
                    assert(found[0] == z);
                }
            }
            assert forall|y: Rev| #[trigger] found.contains(y) implies reachable(all, start, y) && anc.contains(y) by {
                if y != c {
                    let i = choose|i: int| 0 <= i < found.len() && found[i] == y;
                    assert(rest[i - 1] == y);
                    assert(rest.contains(y));
                } else {
                    assert(roots2.contains(c));
                }
            }
            assert forall|i: int| 0 <= i < all.len() && (roots.contains((#[trigger] all[i]).0) || found.contains(all[i].0)) && anc.contains(all[i].1)
                implies (roots.contains(all[i].1) || found.contains(all[i].1)) by {
                assert(roots2.contains(all[i].0) || rest.contains(all[i].0));
            }
        } else {
            assert(found == descend(all.skip(m + 1), anc, roots));
            assert forall|i: int| 0 <= i < m + 1 implies (roots.contains((#[trigger] all[i]).0) && anc.contains(all[i].1) ==> roots.contains(all[i].1)) by {
            }
            lemma_descend_rec(all, m + 1, anc, roots, start);
        }
    }
}

/// Revision pairs that compare equal are the same pair.
proof fn lemma_pair_equal_is_same()
    ensures
        equal_is_same::<(Rev, Rev)>(),
{
    assert forall|x: (Rev, Rev), y: (Rev, Rev)| #[trigger] x.spec_compare(y) == Comparison::Equal implies x == y by {
        assert(x.0.spec_compare(y.0) == Comparison::Equal);
    }
}

/// Some arrangement of `q` in sense `s` exists, and holds `q`'s items.
pub(crate) proof fn lemma_arranged<T: Item>(s: Sense, q: Seq<T>)
    requires
        s != Sense::Unsorted,
        equal_is_same::<T>(),
    ensures
        ordered(s, arranged(s, q)),
        arranged(s, q).to_multiset() == q.to_multiset(),
        forall|v: T| #[trigger] arranged(s, q).contains(v) == q.contains(v),
{
    broadcast use vstd::seq_lib::group_to_multiset_ensures;

    let leq = |a: T, b: T| crate::physical::order::order_le(s, a, b);
    assert(vstd::relations::total_ordering(leq)) by {
        assert forall|a: T| #[trigger] leq(a, a) by {
            lemma_order_laws(s, a, a, a);
        }
        assert forall|a: T, b: T| #[trigger] leq(a, b) && #[trigger] leq(b, a) implies a == b by {
            lemma_order_laws(s, a, b, b);
            T::lemma_compare_laws(a, b, b);
            if s == Sense::Reversed {
                assert(b.spec_compare(a) == Comparison::Equal);
            } else {
                assert(a.spec_compare(b) == Comparison::Equal);
            }
        }
        assert forall|a: T, b: T, c: T| #[trigger] leq(a, b) && #[trigger] leq(b, c) implies leq(a, c) by {
            lemma_order_laws(s, a, b, c);
        }
        assert forall|a: T, b: T| #[trigger] leq(a, b) || #[trigger] leq(b, a) by {
            lemma_order_laws(s, a, b, b);
        }
    }
    q.lemma_sort_by_ensures(leq);
    let r = q.sort_by(leq);
    assert(ordered(s, r)) by {
        assert forall|i: int, j: int| 0 <= i <= j < r.len() implies #[trigger] crate::physical::order::order_le(s, r[i], r[j]) by {
            if i < j {
                assert(leq(r[i], r[j]));
            } else {
                lemma_order_laws(s, r[i], r[i], r[i]);
            }
        }
    }
    let a = arranged(s, q);
    assert(ordered(s, a) && a.to_multiset() == q.to_multiset());
    assert forall|v: T| #[trigger] a.contains(v) == q.contains(v) by {
        assert(a.contains(v) == (a.to_multiset().count(v) > 0));
        assert(q.contains(v) == (q.to_multiset().count(v) > 0));
    }
}

proof fn lemma_interleave_contains(rv: Seq<Rev>, found: Seq<Rev>)
    ensures
        forall|v: Rev| #[trigger] interleave(rv, found).contains(v) == (rv.contains(v) || found.contains(v)),
    decreases found.len(),
{
    if found.len() > 0 {
        let k = lead(rv, found[0]) as int;
        lemma_lead_bound(rv, found[0]);
        let rest = found.drop_first();
        lemma_interleave_contains(rv.skip(k), rest);
        let out = interleave(rv, found);
        let tail = interleave(rv.skip(k), rest);
        assert(out == rv.take(k) + seq![found[0]] + tail);
        assert forall|v: Rev| #[trigger] out.contains(v) == (rv.contains(v) || found.contains(v)) by {
            if out.contains(v) {
                let i = choose|i: int| 0 <= i < out.len() && out[i] == v;
                if i < k {
                    assert(rv[i] == v);
                } else if i == k {
                    assert(found[0] == v);
                } else {
                    assert(tail[i - k - 1] == v);
                    assert(tail.contains(v));
                    if rv.skip(k).contains(v) {
                        let j = choose|j: int| 0 <= j < rv.skip(k).len() && rv.skip(k)[j] == v;
                        assert(rv[j + k] == v);
                    } else {
                        let j = choose|j: int| 0 <= j < rest.len() && rest[j] == v;
                        assert(found[j + 1] == v);
                    }
                }
            }
            if rv.contains(v) {
                let i = choose|i: int| 0 <= i < rv.len() && rv[i] == v;
                if i < k {
                    assert(out[i] == v);
                } else {
                    assert(rv.skip(k)[i - k] == v);
                    assert(rv.skip(k).contains(v));
                    assert(tail.contains(v));
                    let j = choose|j: int| 0 <= j < tail.len() && tail[j] == v;
                    assert(out[k + 1 + j] == v);
                }
            }
            if found.contains(v) {
                let i = choose|i: int| 0 <= i < found.len() && found[i] == v;
                if i == 0 {
                    assert(out[k] == v);
                } else {
                    assert(rest[i - 1] == v);
                    assert(rest.contains(v));
                    assert(tail.contains(v));
                    let j = choose|j: int| 0 <= j < tail.len() && tail[j] == v;
                    assert(out[k + 1 + j] == v);
                }
            }
        }
    } else {
        assert(interleave(rv, found) == rv);
    }
}

proof fn lemma_kept_roots_contains(rs: Seq<Rev>, anc: Seq<Rev>)
    ensures
        forall|v: Rev| #[trigger] kept_roots(rs, anc).contains(v) == (rs.contains(v) && seen_has(anc, v)),
    decreases rs.len(),
{
    if rs.len() > 0 {
        let d = rs.drop_last();
        lemma_kept_roots_contains(d, anc);
        let k = kept_roots(rs, anc);
        let x = rs.last();
        assert forall|v: Rev| #[trigger] k.contains(v) == (rs.contains(v) && seen_has(anc, v)) by {
            assert(kept_roots(d, anc).contains(v) == (d.contains(v) && seen_has(anc, v)));
            assert(rs =~= d.push(x));
            assert(rs[rs.len() - 1] == x);
            lemma_push_contains(d, x);
            assert(rs.contains(v) == (d.contains(v) || v == x));
            if seen_has(anc, x) {
                assert(k == kept_roots(d, anc).push(x));
                lemma_push_contains(kept_roots(d, anc), x);
            } else {
                assert(k == kept_roots(d, anc));
            }
        }
    } else {
        assert(kept_roots(rs, anc) == rs);
    }
}

/// Every edge leads from a child to an older parent.
pub open spec fn child_newer(edges: Seq<(Rev, Rev)>) -> bool {
    forall|i: int| 0 <= i < edges.len() ==> (#[trigger] edges[i]).0.0 > edges[i].1.0
}

proof fn lemma_reached_sub<T>(sub: Seq<(T, T)>, all: Seq<(T, T)>, x: Set<T>, k: nat)
    requires
        forall|i: int| 0 <= i < sub.len() ==> all.contains(#[trigger] sub[i]),
    ensures
        forall|v: T| #[trigger] reached(sub, x, k).contains(v) ==> reached(all, x, k).contains(v),
    decreases k,
{
    if k > 0 {
        lemma_reached_sub(sub, all, x, (k - 1) as nat);
        let r = reached(sub, x, (k - 1) as nat);
        let ra = reached(all, x, (k - 1) as nat);
        assert forall|v: T| #[trigger] reached(sub, x, k).contains(v) implies reached(all, x, k).contains(v) by {
            assert(step_from(sub, r).contains(v));
            if !r.contains(v) {
                let i = choose|i: int| 0 <= i < sub.len() && r.contains(sub[i].0) && sub[i].1 == v;
                assert(all.contains(sub[i]));
                let j = choose|j: int| 0 <= j < all.len() && all[j] == sub[i];
                assert(ra.contains(all[j].0));
                assert(step_from(all, ra).contains(v));
            } else {
                assert(ra.contains(v));
            }
        }
    }
}

proof fn lemma_reached_empty<T>(edges: Seq<(T, T)>, k: nat)
    ensures
        reached(edges, Set::<T>::empty(), k) =~= Set::<T>::empty(),
    decreases k,
{
    if k > 0 {
        lemma_reached_empty(edges, (k - 1) as nat);
        assert(step_from(edges, Set::<T>::empty()) =~= Set::<T>::empty());
    }
}

/// Walking to parents from revisions at most `hi` stays at most `hi`.
proof fn lemma_reached_below(edges: Seq<(Rev, Rev)>, x: Set<Rev>, k: nat, hi: u32)
    requires
        child_newer(edges),
        forall|y: Rev| #[trigger] x.contains(y) ==> y.0 <= hi,
    ensures
        forall|v: Rev| #[trigger] reached(edges, x, k).contains(v) ==> v.0 <= hi,
    decreases k,
{
    if k > 0 {
        lemma_reached_below(edges, x, (k - 1) as nat, hi);
        let r = reached(edges, x, (k - 1) as nat);
        assert forall|v: Rev| #[trigger] reached(edges, x, k).contains(v) implies v.0 <= hi by {
            assert(step_from(edges, r).contains(v));
            if !r.contains(v) {
                let i = choose|i: int| 0 <= i < edges.len() && r.contains(edges[i].0) && edges[i].1 == v;
            }
        }
    }
}

/// Walking to children from revisions at least `lo` stays at least `lo`.
proof fn lemma_reached_above(edges: Seq<(Rev, Rev)>, x: Set<Rev>, k: nat, lo: u32)
    requires
        child_newer(edges),
        forall|y: Rev| #[trigger] x.contains(y) ==> lo <= y.0,
    ensures
        forall|v: Rev| #[trigger] reached(turned(edges), x, k).contains(v) ==> lo <= v.0,
    decreases k,
{
    if k > 0 {
        lemma_reached_above(edges, x, (k - 1) as nat, lo);
        let t = turned(edges);
        let r = reached(t, x, (k - 1) as nat);
        assert forall|v: Rev| #[trigger] reached(t, x, k).contains(v) implies lo <= v.0 by {
            assert(step_from(t, r).contains(v));
            if !r.contains(v) {
                let i = choose|i: int| 0 <= i < t.len() && r.contains(t[i].0) && t[i].1 == v;
                assert(t[i] == (edges[i].1, edges[i].0));
                assert(edges[i].0.0 > edges[i].1.0);
            }
        }
    }
}

/// Parents at least `lo` of the heads' ancestors are reached through the
/// window's edges too.
proof fn lemma_restrict(
    edges: Seq<(Rev, Rev)>,
    y: Set<Rev>,
    k: nat,
    p: int,
    j: int,
    lo: u32,
    hi: u32,
)
    requires
        child_newer(edges),
        0 <= p <= j <= edges.len(),
        forall|i: int| 0 <= i < edges.len() ==> ((p <= i < j) == (lo <= (#[trigger] edges[i]).0.0 <= hi)),
        forall|v: Rev| #[trigger] y.contains(v) ==> v.0 <= hi,
    ensures
        forall|v: Rev| #[trigger] reached(edges, y, k).contains(v) && lo <= v.0 ==> reached(edges.subrange(p, j), y, k).contains(v),
    decreases k,
{
    if k > 0 {
        lemma_restrict(edges, y, (k - 1) as nat, p, j, lo, hi);
        lemma_reached_below(edges, y, (k - 1) as nat, hi);
        let w = edges.subrange(p, j);
        let r = reached(edges, y, (k - 1) as nat);
        let rw = reached(w, y, (k - 1) as nat);
        assert forall|v: Rev| #[trigger] reached(edges, y, k).contains(v) && lo <= v.0 implies reached(w, y, k).contains(v) by {
            assert(step_from(edges, r).contains(v));
            if r.contains(v) {
                assert(rw.contains(v));
            } else {
                let i = choose|i: int| 0 <= i < edges.len() && r.contains(edges[i].0) && edges[i].1 == v;
                assert(edges[i].0.0 > edges[i].1.0);
                assert(edges[i].0.0 <= hi);
                assert(p <= i < j);
                assert(w[i - p] == edges[i]);
                assert(rw.contains(edges[i].0));
                assert(step_from(w, rw).contains(v));
            }
        }
    }
}

/// The roots' descendants that the window's ancestry holds are the roots
/// themselves or handed out by the descent.
proof fn lemma_descend_complete(
    edges: Seq<(Rev, Rev)>,
    xs: Seq<Rev>,
    k: nat,
    p: int,
    j: int,
    lo: u32,
    hi: u32,
    anc: Seq<Rev>,
    pairs: Seq<(Rev, Rev)>,
    found: Seq<Rev>,
)
    requires
        child_newer(edges),
        0 <= p <= j <= edges.len(),
        forall|i: int| 0 <= i < edges.len() ==> ((p <= i < j) == (lo <= (#[trigger] edges[i]).0.0 <= hi)),
        forall|x: Rev| #[trigger] xs.contains(x) ==> lo <= x.0,
        forall|v: Rev| #[trigger] anc.contains(v) ==> v.0 <= hi,
        closed_before(edges.subrange(p, j), j - p, anc),
        forall|i: int| 0 <= i < j - p ==> pairs.contains(((#[trigger] edges.subrange(p, j)[i]).1, edges.subrange(p, j)[i].0)),
        forall|q: int| 0 <= q < pairs.len() ==> ((xs.contains((#[trigger] pairs[q]).0) || found.contains(pairs[q].0)) && anc.contains(pairs[q].1)
            ==> (xs.contains(pairs[q].1) || found.contains(pairs[q].1))),
    ensures
        forall|v: Rev| #[trigger] reached(turned(edges), xs.to_set(), k).contains(v) && anc.contains(v) ==> xs.contains(v) || found.contains(v),
    decreases k,
{
    let t = turned(edges);
    if k > 0 {
        lemma_descend_complete(edges, xs, (k - 1) as nat, p, j, lo, hi, anc, pairs, found);
        assert forall|x: Rev| #[trigger] xs.to_set().contains(x) implies lo <= x.0 by {
            assert(xs.contains(x));
        }
        lemma_reached_above(edges, xs.to_set(), (k - 1) as nat, lo);
        let r = reached(t, xs.to_set(), (k - 1) as nat);
        let w = edges.subrange(p, j);
        assert forall|v: Rev| #[trigger] reached(t, xs.to_set(), k).contains(v) && anc.contains(v) implies xs.contains(v) || found.contains(v) by {
            assert(step_from(t, r).contains(v));
            if !r.contains(v) {
                let i = choose|i: int| 0 <= i < t.len() && r.contains(t[i].0) && t[i].1 == v;
                assert(t[i] == (edges[i].1, edges[i].0));
                let par = edges[i].1;
                assert(edges[i].0 == v);
                assert(lo <= par.0);
                assert(p <= i < j);
                assert(w[i - p] == edges[i]);
                assert(anc.contains(w[i - p].0));
                assert(anc.contains(par));
                assert(r.contains(par));
                assert(pairs.contains((w[i - p].1, w[i - p].0)));
                let q = choose|q: int| 0 <= q < pairs.len() && pairs[q] == (par, v);
                assert(xs.contains(par) || found.contains(par));
            }
        }
    } else {
        assert forall|v: Rev| #[trigger] reached(t, xs.to_set(), k).contains(v) && anc.contains(v) implies xs.contains(v) || found.contains(v) by {
            assert(xs.to_set().contains(v));
        }
    }
}

/// The revisions that descend (reflexively) from a root and lead
/// (reflexively) to a head.
pub open spec fn between(edges: Seq<(Rev, Rev)>, xs: Seq<Rev>, ys: Seq<Rev>, v: Rev) -> bool {
    reachable(turned(edges), xs.to_set(), v) && reachable(edges, ys.to_set(), v)
}

pub(crate) proof fn lemma_window_in_order(edges: Seq<(Rev, Rev)>, p: int, j: int)
    requires
        ordered(Sense::Natural, edges),
        child_newer(edges),
        0 <= p <= j <= edges.len(),
    ensures
        edges_in_order(Sense::Natural, edges.subrange(p, j)),
{
    let w = edges.subrange(p, j);
    assert forall|a: int, b: int| 0 <= a <= b < w.len() implies #[trigger] crate::physical::order::order_le(Sense::Natural, (#[trigger] w[a]).0, w[b].0) by {
        assert(w[a] == edges[p + a] && w[b] == edges[p + b]);
        assert(crate::physical::order::order_le(Sense::Natural, edges[p + a], edges[p + b]));
    }
    assert forall|a: int| 0 <= a < w.len() implies order_compare(Sense::Natural, (#[trigger] w[a]).0, w[a].1) == Comparison::Less by {
        assert(w[a] == edges[p + a]);
    }
}

proof fn lemma_pairs_in_order(w: Seq<(Rev, Rev)>, pairs: Seq<(Rev, Rev)>)
    requires
        child_newer(w),
        ordered(Sense::Reversed, pairs),
        forall|v: (Rev, Rev)| #[trigger] pairs.contains(v) == turned(w).contains(v),
    ensures
        edges_in_order(Sense::Reversed, pairs),
{
    assert forall|a: int, b: int| 0 <= a <= b < pairs.len() implies #[trigger] crate::physical::order::order_le(Sense::Reversed, (#[trigger] pairs[a]).0, pairs[b].0) by {
        assert(crate::physical::order::order_le(Sense::Reversed, pairs[a], pairs[b]));
    }
    assert forall|a: int| 0 <= a < pairs.len() implies order_compare(Sense::Reversed, (#[trigger] pairs[a]).0, pairs[a].1) == Comparison::Less by {
        assert(pairs.contains(pairs[a]));
        let t = turned(w);
        assert(t.contains(pairs[a]));
        let i = choose|i: int| 0 <= i < t.len() && t[i] == pairs[a];
        assert(t[i] == (w[i].1, w[i].0));
    }
}

/// Given edges from children to older parents, read in the order of an
/// index of (child, parent) pairs, `x::y` hands out exactly the revisions
/// that descend from a root and lead to a head (each root and head counting
/// as its own descendant and ancestor).
pub proof fn law_dag_range(xs: Seq<Rev>, ys: Seq<Rev>, edges: Seq<(Rev, Rev)>)
    requires
        ordered(Sense::Natural, edges),
        child_newer(edges),
    ensures
        ordered(Sense::Reversed, dag_range_stream(xs, ys, edges)),
        forall|v: Rev| #[trigger] dag_range_stream(xs, ys, edges).contains(v) == between(edges, xs, ys, v),
{
    lemma_rev_equal_is_same();
    lemma_pair_equal_is_same();
    let out = range_scan_order(xs, ys, edges);
    lemma_arranged(Sense::Reversed, out);
    if xs.len() == 0 || ys.len() == 0 {
        assert(out =~= Seq::<Rev>::empty());
        assert forall|v: Rev| #[trigger] out.contains(v) == between(edges, xs, ys, v) by {
            if between(edges, xs, ys, v) {
                if xs.len() == 0 {
                    assert(xs.to_set() =~= Set::<Rev>::empty());
                    let k = choose|k: nat| #[trigger] reached(turned(edges), xs.to_set(), k).contains(v);
                    lemma_reached_empty(turned(edges), k);
                } else {
                    assert(ys.to_set() =~= Set::<Rev>::empty());
                    let k = choose|k: nat| #[trigger] reached(edges, ys.to_set(), k).contains(v);
                    lemma_reached_empty(edges, k);
                }
            }
        }
    } else {
        let pj = lemma_window(edges, xs, ys);
        let p = pj.0;
        let j = pj.1;
        lemma_head_window(ys);
        lemma_root_window(xs);
        let hi = head_window(ys).0.0;
        let lo = root_window(xs).1.0;
        let w = window_edges(edges, xs, ys);
        assert(w == edges.subrange(p, j));
        lemma_window_in_order(edges, p, j);
        assert(child_newer(w)) by {
            assert forall|i: int| 0 <= i < w.len() implies (#[trigger] w[i]).0.0 > w[i].1.0 by {
                assert(w[i] == edges[p + i]);
            }
        }
        assert forall|i: int| 0 <= i < w.len() implies edges.contains(#[trigger] w[i]) by {
            assert(w[i] == edges[p + i]);
        }
        let yset = ys.to_set();
        let xset = xs.to_set();
        // the heads' ancestry in the window
        assert(w.skip(0) =~= w);
        assert forall|y: Rev| #[trigger] ys.contains(y) implies reachable(w, yset, y) by {
            assert(reached(w, yset, 0).contains(y));
        }
        lemma_ancestry_rec(w, 0, ys, yset);
        let anc = ancestry(w, ys);
        assert forall|y: Rev| #[trigger] yset.contains(y) implies anc.contains(y) by {
            assert(ys.contains(y));
        }
        assert forall|y: Rev| #[trigger] ys.to_set().contains(y) implies y.0 <= hi by {
            assert(ys.contains(y));
            let i = choose|i: int| 0 <= i < ys.len() && ys[i] == y;
        }
        assert forall|x: Rev| #[trigger] xs.contains(x) implies lo <= x.0 by {
            let i = choose|i: int| 0 <= i < xs.len() && xs[i] == x;
        }
        assert forall|v: Rev| #[trigger] anc.contains(v) implies v.0 <= hi && reachable(edges, yset, v) by {
            let k = choose|k: nat| #[trigger] reached(w, yset, k).contains(v);
            lemma_reached_sub(w, edges, yset, k);
            lemma_reached_below(edges, yset, k, hi);
        }
        // the roots kept, oldest first
        let kept = kept_roots(xs, anc);
        lemma_kept_roots_contains(xs, anc);
        let rv = arranged(Sense::Reversed, kept);
        lemma_arranged(Sense::Reversed, kept);
        assert forall|v: Rev| #[trigger] rv.contains(v) == (xs.contains(v) && anc.contains(v)) by {
            lemma_seen_has(anc, v);
            assert(kept.contains(v) == (xs.contains(v) && seen_has(anc, v)));
        }
        // the descent
        let tw = turned(w);
        let pairs = arranged(Sense::Reversed, tw);
        lemma_arranged(Sense::Reversed, tw);
        lemma_pairs_in_order(w, pairs);
        assert(pairs.skip(0) =~= pairs);
        assert forall|y: Rev| #[trigger] xs.contains(y) implies reachable(pairs, xset, y) by {
            assert(reached(pairs, xset, 0).contains(y));
        }
        lemma_descend_rec(pairs, 0, anc, xs, xset);
        let found = descend(pairs, anc, xs);
        assert forall|q: int| 0 <= q < pairs.len() implies turned(edges).contains(#[trigger] pairs[q]) by {
            assert(pairs.contains(pairs[q]));
            assert(tw.contains(pairs[q]));
            let i = choose|i: int| 0 <= i < tw.len() && tw[i] == pairs[q];
            assert(tw[i] == (w[i].1, w[i].0));
            assert(w[i] == edges[p + i]);
            assert(turned(edges)[p + i] == (edges[p + i].1, edges[p + i].0));
        }
        if rv.len() > 0 {
            assert(out == interleave(rv, found));
            lemma_interleave_contains(rv, found);
        } else {
            assert(out =~= Seq::<Rev>::empty());
        }
        assert forall|v: Rev| #[trigger] out.contains(v) == between(edges, xs, ys, v) by {
            if out.contains(v) {
                assert(rv.len() > 0);
                assert(rv.contains(v) || found.contains(v));
                if rv.contains(v) {
                    assert(xset.contains(v));
                    assert(reached(turned(edges), xset, 0).contains(v));
                } else {
                    let k = choose|k: nat| #[trigger] reached(pairs, xset, k).contains(v);
                    lemma_reached_sub(pairs, turned(edges), xset, k);
                    assert(reached(turned(edges), xset, k).contains(v));
                }
            }
            if between(edges, xs, ys, v) {
                let k1 = choose|k: nat| #[trigger] reached(turned(edges), xset, k).contains(v);
                let k2 = choose|k: nat| #[trigger] reached(edges, yset, k).contains(v);
                assert forall|x: Rev| #[trigger] xset.contains(x) implies lo <= x.0 by {
                    assert(xs.contains(x));
                }
                lemma_reached_above(edges, xset, k1, lo);
                lemma_restrict(edges, yset, k2, p, j, lo, hi);
                assert(reached(w, yset, k2).contains(v));
                lemma_reached_within(w, yset, anc, k2);
                assert(anc.contains(v));
                assert forall|i: int| 0 <= i < j - p implies pairs.contains(((#[trigger] edges.subrange(p, j)[i]).1, edges.subrange(p, j)[i].0)) by {
                    assert(tw[i] == (w[i].1, w[i].0));
                    assert(tw.contains(tw[i]));
                }
                lemma_descend_complete(edges, xs, k1, p, j, lo, hi, anc, pairs, found);
                assert(xs.contains(v) || found.contains(v));
                if xs.contains(v) {
                    assert(rv.contains(v));
                } else {
                    assert(found.len() > 0);
                    let i = choose|i: int| 0 <= i < pairs.len() && xs.contains((#[trigger] pairs[i]).0) && pairs[i].1 == found[0];
                    assert(found.contains(found[0]));
                    assert(anc.contains(found[0]));
                    assert(pairs.contains(pairs[i]));
                    assert(tw.contains(pairs[i]));
                    let q = choose|q: int| 0 <= q < tw.len() && tw[q] == pairs[i];
                    assert(tw[q] == (w[q].1, w[q].0));
                    assert(anc.contains(w[q].0));
                    assert(anc.contains(w[q].1));
                    assert(rv.contains(pairs[i].0));
                }
                assert(rv.len() > 0);
            }
        }
    }
    assert forall|v: Rev| #[trigger] dag_range_stream(xs, ys, edges).contains(v) == between(edges, xs, ys, v) by {
        assert(out.contains(v) == between(edges, xs, ys, v));
    }
}

} // verus!
